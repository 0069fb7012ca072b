//! Find bar state: the query, its matches in the text (literal, with or
//! without case), and the current match.

use vstd::prelude::*;
use vstd::utf8::encode_utf8;
use crate::text::boundary;
use std::ops::Range;

verus! {

/// The byte ranges of `v` as pairs.
pub open spec fn range_pairs(v: Seq<Range<usize>>) -> Seq<(int, int)> {
    v.map_values(|r: Range<usize>| (r.start as int, r.end as int))
}

/// Matches `ms` in a text `t`: each within it, starting and ending on
/// character boundaries, in order and not overlapping.
pub open spec fn ordered_matches(ms: Seq<(int, int)>, t: Seq<u8>) -> bool {
    &&& forall|i: int| 0 <= i < ms.len() ==> 0 <= (#[trigger] ms[i]).0 <= ms[i].1 <= t.len()
    &&& forall|i: int| 0 <= i < ms.len() ==> boundary(t, (#[trigger] ms[i]).0) && boundary(t, ms[i].1)
    &&& forall|i: int| 0 <= i < ms.len() - 1 ==> (#[trigger] ms[i]).1 <= ms[i + 1].0
}

/// The successive non-overlapping occurrences of `q` in `t`, from `i` on,
/// leftmost first.
pub open spec fn occurrences(t: Seq<u8>, q: Seq<u8>, i: int) -> Seq<(int, int)>
    decreases t.len() - i,
{
    if q.len() == 0 || i < 0 || i + q.len() > t.len() {
        seq![]
    } else if t.subrange(i, i + q.len()) == q {
        seq![(i, i + q.len())] + occurrences(t, q, i + q.len())
    } else {
        occurrences(t, q, i + 1)
    }
}

/// The matches, under Unicode simple case folding, of the literal `query`
/// in `text`: what the regex crate finds for the escaped query with the
/// case-insensitive flag.
pub uninterp spec fn caseless_matches(query: Seq<char>, text: Seq<char>) -> Seq<(int, int)>;

/// Whether the regex crate refuses the escaped literal `query` (with case
/// ignored unless `match_case`): its compiled form would exceed the
/// crate's size limit. A function of the pattern alone.
pub uninterp spec fn literal_too_big(query: Seq<char>, match_case: bool) -> bool;

/// All matches of the literal `query` in `text` (case-insensitive unless
/// `match_case`), by `regex::escape`, `regex::RegexBuilder` (with
/// `case_insensitive`) and `Regex::find_iter`.
/// Trusted: `None` exactly when the regex cannot be built, which for an
/// escaped literal happens only when it is too big (named
/// `literal_too_big`); otherwise the matches are the successive
/// non-overlapping matches, leftmost first, which for a case-sensitive
/// literal are its occurrences; without case they are named
/// `caseless_matches`; either way they lie in the text, on character
/// boundaries, in order and without overlap (`ordered_matches`).
#[verifier::external_body]
fn find_literal(query: &str, match_case: bool, text: &str) -> (r: Option<Vec<Range<usize>>>)
    requires
        query@.len() > 0,
    ensures
        r is None <==> literal_too_big(query@, match_case),
        r matches Some(v) ==> {
            &&& match_case ==> range_pairs(v@) == occurrences(encode_utf8(text@), encode_utf8(query@), 0)
            &&& !match_case ==> range_pairs(v@) == caseless_matches(query@, text@)
            &&& forall|i: int| 0 <= i < v@.len() ==> (#[trigger] v@[i]).start <= v@[i].end <= encode_utf8(text@).len()
            &&& ordered_matches(range_pairs(v@), encode_utf8(text@))
        },
{
    let pattern = regex::escape(query);
    match regex::RegexBuilder::new(&pattern).case_insensitive(!match_case).build() {
        Ok(re) => Some(re.find_iter(text).map(|m| m.range()).collect()),
        Err(_) => None,
    }
}

/// State for the find-and-replace search bar.
pub struct FindState {
    pub visible: bool,
    pub query: String,
    pub replace_text: String,
    pub matches: Vec<Range<usize>>,
    pub current_match: Option<usize>,
    pub match_case: bool,
    pub replace_visible: bool,
    /// When true, keyboard input goes to the search/replace input instead of the editor.
    pub input_focused: bool,
    /// When true, the replace input field is focused (else search input).
    pub replace_input_focused: bool,
}

/// The index after `i` among `n`, wrapping to the first.
pub open spec fn wrap_next(i: int, n: int) -> int {
    (i + 1) % n
}

/// The index before `i` among `n`, wrapping to the last.
pub open spec fn wrap_prev(i: int, n: int) -> int {
    if i == 0 { n - 1 } else { i - 1 }
}

/// Stepping forward then back (or back then forward) among `n` entries
/// returns to the same entry.
pub proof fn lemma_wrap_inverse(i: int, n: int)
    requires
        0 <= i < n,
    ensures
        0 <= wrap_next(i, n) < n,
        0 <= wrap_prev(i, n) < n,
        wrap_prev(wrap_next(i, n), n) == i,
        wrap_next(wrap_prev(i, n), n) == i,
{
    if i + 1 < n {
        vstd::arithmetic::div_mod::lemma_small_mod((i + 1) as nat, n as nat);
    } else {
        vstd::arithmetic::div_mod::lemma_mod_self_0(n);
    }
    if i > 0 {
        vstd::arithmetic::div_mod::lemma_small_mod(i as nat, n as nat);
    } else {
        vstd::arithmetic::div_mod::lemma_small_mod((n - 1) as nat, n as nat);
        vstd::arithmetic::div_mod::lemma_mod_self_0(n);
    }
}

/// The current match is absent or one of the matches.
pub open spec fn current_ok(cur: Option<usize>, n: int) -> bool {
    match cur {
        Some(i) => i < n,
        None => true,
    }
}

/// `a` saturating-minus `b`.
pub open spec fn sat_sub(a: int, b: int) -> int {
    if a > b { a - b } else { 0 }
}

/// Match `m` touches the line `[ls, le)`.
pub open spec fn on_line(m: Range<usize>, ls: int, le: int) -> bool {
    !(m.start >= le || m.end <= ls)
}

/// Match `m` relative to the line start, clipped to the line.
pub open spec fn clip(m: Range<usize>, ls: int, le: int) -> (int, int) {
    let e = sat_sub(m.end as int, ls);
    (sat_sub(m.start as int, ls), if e < le - ls { e } else { le - ls })
}

/// The non-empty clipped ranges of the matches among `ms[0..n)` that touch
/// the line.
pub open spec fn line_highlights(ms: Seq<Range<usize>>, ls: int, le: int, n: int) -> Seq<(int, int)>
    decreases n,
{
    if n <= 0 {
        seq![]
    } else {
        let r = line_highlights(ms, ls, le, n - 1);
        let c = clip(ms[n - 1], ls, le);
        if on_line(ms[n - 1], ls, le) && c.0 < c.1 {
            r.push(c)
        } else {
            r
        }
    }
}


/// The occurrences of `q` are non-overlapping, in order, at or after `i`,
/// and each is `q`.
pub proof fn lemma_occurrences(t: Seq<u8>, q: Seq<u8>, i: int)
    ensures
        forall|j: int| 0 <= j < occurrences(t, q, i).len() ==> {
            let m = #[trigger] occurrences(t, q, i)[j];
            &&& i <= m.0
            &&& m.1 == m.0 + q.len()
            &&& m.1 <= t.len()
            &&& t.subrange(m.0, m.1) == q
        },
        forall|j: int| 0 <= j < occurrences(t, q, i).len() - 1 ==> (#[trigger] occurrences(t, q, i)[j]).1 <= occurrences(t, q, i)[j + 1].0,
    decreases t.len() - i,
{
    if q.len() == 0 || i < 0 || i + q.len() > t.len() {
        assert(occurrences(t, q, i).len() == 0);
    } else if t.subrange(i, i + q.len()) == q {
        lemma_occurrences(t, q, i + q.len());
        let r = occurrences(t, q, i + q.len());
        let w = seq![(i, i + q.len())] + r;
        assert(occurrences(t, q, i) == w);
        assert forall|j: int| 0 <= j < w.len() implies {
            let m = #[trigger] w[j];
            &&& i <= m.0
            &&& m.1 == m.0 + q.len()
            &&& m.1 <= t.len()
            &&& t.subrange(m.0, m.1) == q
        } by {
            if j > 0 {
                assert(w[j] == r[j - 1]);
            }
        }
        assert forall|j: int| 0 <= j < w.len() - 1 implies (#[trigger] w[j]).1 <= w[j + 1].0 by {
            if j > 0 {
                assert(w[j] == r[j - 1] && w[j + 1] == r[j]);
            } else {
                assert(w[j + 1] == r[0]);
                assert(i + q.len() <= r[0].0);
            }
        }
    } else {
        lemma_occurrences(t, q, i + 1);
        assert(occurrences(t, q, i) == occurrences(t, q, i + 1));
    }
}

/// Every highlight of a line lies inside the line and is not empty.
pub proof fn lemma_line_highlights(ms: Seq<Range<usize>>, ls: int, le: int, n: int)
    requires
        0 <= ls <= le,
        n <= ms.len(),
    ensures
        forall|j: int| 0 <= j < line_highlights(ms, ls, le, n).len() ==> 0 <= (#[trigger] line_highlights(ms, ls, le, n)[j]).0
            < line_highlights(ms, ls, le, n)[j].1 <= le - ls,
    decreases n,
{
    if n > 0 {
        lemma_line_highlights(ms, ls, le, n - 1);
        let r = line_highlights(ms, ls, le, n - 1);
        let c = clip(ms[n - 1], ls, le);
        if on_line(ms[n - 1], ls, le) && c.0 < c.1 {
            assert forall|j: int| 0 <= j < r.push(c).len() implies 0 <= (#[trigger] r.push(c)[j]).0 < r.push(c)[j].1 <= le - ls by {
                if j < r.len() {
                    assert(r.push(c)[j] == r[j]);
                }
            }
        }
    }
}

impl FindState {
    /// A hidden, empty find bar.
    pub fn new() -> (r: FindState)
        ensures
            !r.visible,
            r.query@.len() == 0,
            r.replace_text@.len() == 0,
            r.matches@.len() == 0,
            r.current_match is None,
            !r.match_case,
            !r.replace_visible,
            !r.input_focused,
            !r.replace_input_focused,
    {
        FindState {
            visible: false,
            query: String::new(),
            replace_text: String::new(),
            matches: Vec::new(),
            current_match: None,
            match_case: false,
            replace_visible: false,
            input_focused: false,
            replace_input_focused: false,
        }
    }

    /// Takes the matches a search found (`None`: none could be found): the
    /// first becomes current.
    pub fn set_matches(&mut self, found: Option<Vec<Range<usize>>>)
        ensures
            final(self).matches@ == match found {
                Some(v) => v@,
                None => seq![],
            },
            final(self).current_match == (if final(self).matches@.len() > 0 { Some(0usize) } else { None }),
            final(self).visible == old(self).visible,
            final(self).query == old(self).query,
            final(self).replace_text == old(self).replace_text,
            final(self).match_case == old(self).match_case,
            final(self).replace_visible == old(self).replace_visible,
            final(self).input_focused == old(self).input_focused,
            final(self).replace_input_focused == old(self).replace_input_focused,
    {
        self.matches = match found {
            Some(v) => v,
            None => Vec::new(),
        };
        self.current_match = if self.matches.len() > 0 {
            Some(0)
        } else {
            None
        };
    }

    /// Searches `text` for the query: all its literal occurrences (with or
    /// without case), see `find_literal`; an empty query, or one too big
    /// for the regex crate, finds nothing.
    pub fn search(&mut self, text: &str)
        ensures
            final(self).visible == old(self).visible,
            final(self).query == old(self).query,
            final(self).replace_text == old(self).replace_text,
            final(self).match_case == old(self).match_case,
            final(self).replace_visible == old(self).replace_visible,
            final(self).input_focused == old(self).input_focused,
            final(self).replace_input_focused == old(self).replace_input_focused,
            final(self).current_match == (if final(self).matches@.len() > 0 { Some(0usize) } else { None }),
            old(self).query@.len() == 0 ==> final(self).matches@.len() == 0,
            old(self).query@.len() > 0 && literal_too_big(old(self).query@, old(self).match_case)
                ==> final(self).matches@.len() == 0,
            ordered_matches(range_pairs(final(self).matches@), encode_utf8(text@)),
            old(self).query@.len() > 0 && !literal_too_big(old(self).query@, old(self).match_case) ==> {
                &&& old(self).match_case ==> range_pairs(final(self).matches@) == occurrences(encode_utf8(text@), encode_utf8(old(self).query@), 0)
                &&& !old(self).match_case ==> range_pairs(final(self).matches@) == caseless_matches(old(self).query@, text@)
            },
    {
        self.matches = Vec::new();
        self.current_match = None;
        if self.query.as_str().is_empty() {
            return;
        }
        let found = find_literal(self.query.as_str(), self.match_case, text);
        self.set_matches(found);
    }

    /// Reset all state (close the bar).
    pub fn close(&mut self)
        ensures
            !final(self).visible,
            final(self).query@.len() == 0,
            final(self).replace_text@.len() == 0,
            final(self).matches@.len() == 0,
            final(self).current_match is None,
            !final(self).input_focused,
            !final(self).replace_input_focused,
            !final(self).replace_visible,
            !final(self).match_case,
    {
        self.visible = false;
        self.query = String::new();
        self.replace_text = String::new();
        self.matches = Vec::new();
        self.current_match = None;
        self.input_focused = false;
        self.replace_input_focused = false;
        self.replace_visible = false;
        self.match_case = false;
    }

    /// Move to the next match, wrapping around; `None` when there are no
    /// matches.
    pub fn find_next(&mut self) -> (r: Option<usize>)
        requires
            old(self).current_match != Some(usize::MAX),
        ensures
            final(self).matches == old(self).matches,
            old(self).matches@.len() == 0 ==> r is None && final(self).current_match == old(self).current_match,
            old(self).matches@.len() > 0 ==> r == Some((match old(self).current_match {
                Some(i) => wrap_next(i as int, old(self).matches@.len() as int) as usize,
                None => 0usize,
            })) && final(self).current_match == r,
            final(self).query == old(self).query,
            final(self).visible == old(self).visible,
            final(self).match_case == old(self).match_case,
    {
        if self.matches.len() == 0 {
            return None;
        }
        let next = match self.current_match {
            Some(i) => (i + 1) % self.matches.len(),
            None => 0,
        };
        self.current_match = Some(next);
        Some(next)
    }

    /// Move to the previous match, wrapping around; `None` when there are
    /// no matches.
    pub fn find_prev(&mut self) -> (r: Option<usize>)
        ensures
            final(self).matches == old(self).matches,
            old(self).matches@.len() == 0 ==> r is None && final(self).current_match == old(self).current_match,
            old(self).matches@.len() > 0 ==> r == Some((match old(self).current_match {
                Some(i) => wrap_prev(i as int, old(self).matches@.len() as int) as usize,
                None => (old(self).matches@.len() - 1) as usize,
            })) && final(self).current_match == r,
            final(self).query == old(self).query,
            final(self).visible == old(self).visible,
            final(self).match_case == old(self).match_case,
    {
        if self.matches.len() == 0 {
            return None;
        }
        let prev = match self.current_match {
            Some(i) => {
                if i == 0 {
                    self.matches.len() - 1
                } else {
                    i - 1
                }
            },
            None => self.matches.len() - 1,
        };
        self.current_match = Some(prev);
        Some(prev)
    }

    /// Number of matches found.
    pub fn match_count(&self) -> (r: usize)
        ensures
            r == self.matches@.len(),
    {
        self.matches.len()
    }

    /// The byte range of the current match, if any.
    pub fn current_match_range(&self) -> (r: Option<Range<usize>>)
        requires
            current_ok(self.current_match, self.matches@.len() as int),
        ensures
            match self.current_match {
                Some(i) => r matches Some(x) && x.start == self.matches@[i as int].start && x.end == self.matches@[i as int].end,
                None => r is None,
            },
    {
        match self.current_match {
            Some(i) => {
                let m = &self.matches[i];
                Some(m.start..m.end)
            },
            None => None,
        }
    }

    /// For the line `[line_start, line_end)`: the matches touching it
    /// (relative to its start, clipped to it, empty ones left out) and the
    /// current match's range if it touches the line.
    pub fn highlights_for_line(&self, line_start: usize, line_end: usize) -> (r: (Vec<Range<usize>>, Option<Range<usize>>))
        requires
            line_start <= line_end,
        ensures
            self.matches@.len() == 0 || self.query@.len() == 0 ==> r.0@.len() == 0 && r.1 is None,
            self.matches@.len() > 0 && self.query@.len() > 0 ==> {
                &&& range_pairs(r.0@) == line_highlights(self.matches@, line_start as int, line_end as int, self.matches@.len() as int)
                &&& match self.current_match {
                    Some(i) => if (i as int) < self.matches@.len() && on_line(self.matches@[i as int], line_start as int, line_end as int) {
                        r.1 matches Some(x) && (x.start as int, x.end as int) == clip(self.matches@[i as int], line_start as int, line_end as int)
                    } else {
                        r.1 is None
                    },
                    None => r.1 is None,
                }
            },
    {
        let mut highlights: Vec<Range<usize>> = Vec::new();
        if self.matches.len() == 0 || self.query.as_str().is_empty() {
            return (highlights, None);
        }
        let mut current: Option<Range<usize>> = None;
        let mut i: usize = 0;
        while i < self.matches.len()
            invariant
                i <= self.matches@.len(),
                line_start <= line_end,
                range_pairs(highlights@) == line_highlights(self.matches@, line_start as int, line_end as int, i as int),
                match self.current_match {
                    Some(c) => if (c as int) < i && on_line(self.matches@[c as int], line_start as int, line_end as int) {
                        current matches Some(x) && (x.start as int, x.end as int) == clip(self.matches@[c as int], line_start as int, line_end as int)
                    } else {
                        current is None
                    },
                    None => current is None,
                },
            decreases self.matches@.len() - i,
        {
            let ms = self.matches[i].start;
            let me = self.matches[i].end;
            if ms >= line_end || me <= line_start {
                i = i + 1;
                continue;
            }
            let rel_start = if ms > line_start { ms - line_start } else { 0 };
            let rel_end0 = if me > line_start { me - line_start } else { 0 };
            let rel_end = if rel_end0 < line_end - line_start { rel_end0 } else { line_end - line_start };
            let ghost before = highlights@;
            if rel_start < rel_end {
                highlights.push(rel_start..rel_end);
                assert(range_pairs(highlights@) =~= range_pairs(before).push((rel_start as int, rel_end as int)));
            }
            let is_cur = match self.current_match {
                Some(c) => c == i,
                None => false,
            };
            if is_cur {
                current = Some(rel_start..rel_end);
            }
            i = i + 1;
        }
        (highlights, current)
    }
}

} // verus!
