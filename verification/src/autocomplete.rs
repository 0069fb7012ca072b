//! Mention autocomplete: detecting an `@name` being typed, the popup's
//! state, and moving through its suggestions.

use vstd::prelude::*;
use crate::find::{wrap_next, wrap_prev};
use crate::state::{EditorState, EditorView, line_start_of, raw_replace};
use crate::text::{str_bytes, string_from_utf8};
use vstd::utf8::{decode_utf8, encode_utf8, encode_utf8_decode_utf8, encode_utf8_valid_utf8};

verus! {

/// The type of autocomplete trigger.
#[derive(Clone, Copy, PartialEq, Eq, Debug, Structural)]
pub enum AutocompleteTrigger {
    /// User autocomplete triggered by `@`.
    User,
}

/// A suggestion for the popup.
#[derive(Clone, Debug)]
pub enum AutocompleteSuggestion {
    /// A user.
    User { login: String, name: Option<String> },
}

/// State for the autocomplete popup.
#[derive(Clone, Debug)]
pub struct AutocompleteState {
    /// The type of autocomplete.
    pub trigger: AutocompleteTrigger,
    /// Byte offset where the trigger character (`@`) was typed.
    pub trigger_offset: usize,
    /// The prefix typed after the trigger.
    pub prefix: String,
    /// Suggestions fetched for the prefix.
    pub suggestions: Vec<AutocompleteSuggestion>,
    /// Currently selected suggestion index.
    pub selected_index: usize,
    /// Whether suggestions are being fetched.
    pub loading: bool,
    /// The prefix last fetched for (to avoid duplicate fetches).
    pub fetched_prefix: Option<String>,
}

/// Whether `c` is alphabetic or numeric in the Unicode sense (what
/// `char::is_alphanumeric` answers).
pub uninterp spec fn alphanumeric(c: char) -> bool;

/// `char::is_alphanumeric`. Trusted: the answer is `alphanumeric(c)`; on
/// ASCII it is exactly the letters and the digits.
#[verifier::external_body]
fn is_alphanumeric(c: char) -> (r: bool)
    ensures
        r == alphanumeric(c),
        (c as u32) < 128 ==> (r <==> (('a' <= c && c <= 'z') || ('A' <= c && c <= 'Z') || ('0' <= c && c <= '9'))),
{
    c.is_alphanumeric()
}

/// Position of the last `@` among `b[0..n)`.
pub open spec fn last_at(b: Seq<u8>, n: int) -> Option<int>
    decreases n,
{
    if n <= 0 {
        None
    } else if b[n - 1] == 64u8 {
        Some(n - 1)
    } else {
        last_at(b, n - 1)
    }
}

/// A character allowed in a user name.
pub open spec fn user_char(c: char) -> bool {
    alphanumeric(c) || c == '-'
}

/// A prefix that may start a user name: empty, or letters, digits and
/// hyphens not starting with a hyphen.
pub open spec fn valid_user_prefix(p: Seq<char>) -> bool {
    p.len() == 0 || ((forall|i: int| 0 <= i < p.len() ==> user_char(#[trigger] p[i])) && p[0] != '-')
}

/// The `@` trigger in the text before the cursor on its line (which starts
/// at `line_start`): the last `@`, when it starts a word and the text after
/// it may start a user name; its offset and that text.
pub open spec fn mention_at(text: Seq<char>, line_start: int) -> Option<(int, Seq<char>)> {
    let b = encode_utf8(text);
    match last_at(b, b.len() as int) {
        None => None,
        Some(pos) => if !(pos == 0 || b[pos - 1] == 32u8 || b[pos - 1] == 9u8 || b[pos - 1] == 10u8) {
            None
        } else {
            let prefix = decode_utf8(b.subrange(pos + 1, b.len() as int));
            if valid_user_prefix(prefix) {
                Some((line_start + pos, prefix))
            } else {
                None
            }
        },
    }
}

/// Checks the prefix characters.
fn valid_prefix_exec(prefix: &str) -> (r: bool)
    ensures
        r == valid_user_prefix(prefix@),
{
    let mut ok = true;
    let mut first = true;
    let mut starts_hyphen = false;
    for c in it: prefix.chars()
        invariant
            it.seq() == prefix@,
            ok == (forall|i: int| 0 <= i < it.index() ==> user_char(#[trigger] prefix@[i])),
            first == (it.index() == 0),
            !first ==> starts_hyphen == (prefix@[0] == '-'),
    {
        if first {
            starts_hyphen = c == '-';
            first = false;
        }
        if !(is_alphanumeric(c) || c == '-') {
            ok = false;
        }
    }
    first || (ok && !starts_hyphen)
}

/// Detects an `@` mention being typed in `line_text` (the line up to the
/// cursor, starting at byte `line_start`): its trigger, offset and prefix.
pub fn detect_autocomplete_trigger(line_text: &str, line_start: usize) -> (r: Option<(AutocompleteTrigger, usize, String)>)
    requires
        line_start + encode_utf8(line_text@).len() <= usize::MAX,
    ensures
        match mention_at(line_text@, line_start as int) {
            Some(m) => r matches Some(x) && x.0 == AutocompleteTrigger::User && x.1 as int == m.0 && x.2@ == m.1,
            None => r is None,
        },
{
    let b = line_text.as_bytes();
    let ghost bs = encode_utf8(line_text@);
    assert(b@ == bs);
    let mut n = b.len();
    while n > 0 && b[n - 1] != 64u8
        invariant
            n <= bs.len(),
            b@ == bs,
            last_at(bs, n as int) == last_at(bs, bs.len() as int),
        decreases n,
    {
        n = n - 1;
    }
    if n == 0 {
        return None;
    }
    let pos = n - 1;
    if !(pos == 0 || b[pos - 1] == 32u8 || b[pos - 1] == 9u8 || b[pos - 1] == 10u8) {
        return None;
    }
    proof {
        encode_utf8_valid_utf8(line_text@);
        crate::text::lemma_after_ascii(bs, pos as int);
        crate::text::lemma_boundary(bs, pos + 1);
    }
    let parts = line_text.split_at(pos + 1);
    let rest = parts.1;
    proof {
        encode_utf8_decode_utf8(rest@);
    }
    if !valid_prefix_exec(rest) {
        return None;
    }
    Some((AutocompleteTrigger::User, line_start + pos, rest.to_owned()))
}

/// Whether the popup must change for a trigger and prefix: always when
/// there is none, else when the trigger or the prefix differs.
pub open spec fn popup_changes(current: Option<AutocompleteState>, trigger: AutocompleteTrigger, prefix: Seq<char>) -> bool {
    match current {
        Some(ac) => ac.trigger != trigger || ac.prefix@ != prefix,
        None => true,
    }
}


/// What updating the popup `old` for a trigger gives: whether it changed
/// (`r`) and the new popup. A changed popup keeps the suggestions,
/// selection and fetched prefix of the popup it replaces when that had the
/// same trigger, and is not loading; an unchanged one stays.
pub open spec fn popup_after(old: Option<AutocompleteState>, trigger: AutocompleteTrigger, offset: int, prefix: Seq<char>, r: bool, new: Option<AutocompleteState>) -> bool {
    &&& r == popup_changes(old, trigger, prefix)
    &&& !r ==> new == old
    &&& r ==> (new matches Some(ac) && {
        let same = (old matches Some(o) && o.trigger == trigger);
        &&& ac.trigger == trigger
        &&& ac.trigger_offset == offset
        &&& ac.prefix@ == prefix
        &&& ac.loading == false
        &&& ac.suggestions@ == (if same { old->0.suggestions@ } else { seq![] })
        &&& ac.selected_index == (if same { old->0.selected_index } else { 0 })
        &&& ac.fetched_prefix == (if same { old->0.fetched_prefix } else { None })
    })
}

/// Updates the popup for a detected trigger; returns whether it changed
/// (and suggestions must be fetched or filtered). A changed popup keeps the
/// suggestions, selection and fetched prefix of the popup it replaces when
/// that had the same trigger, and is not loading.
pub fn set_autocomplete_state(current: &mut Option<AutocompleteState>, trigger: AutocompleteTrigger, trigger_offset: usize, prefix: String) -> (r: bool)
    ensures
        popup_after(*old(current), trigger, trigger_offset as int, prefix@, r, *final(current)),
{
    let changed = match current {
        Some(ac) => ac.trigger != trigger || !(ac.prefix == prefix),
        None => true,
    };
    if !changed {
        return false;
    }
    let old_state = current.take();
    let next = match old_state {
        Some(o) => {
            if o.trigger == trigger {
                AutocompleteState {
                    trigger,
                    trigger_offset,
                    prefix,
                    suggestions: o.suggestions,
                    selected_index: o.selected_index,
                    loading: false,
                    fetched_prefix: o.fetched_prefix,
                }
            } else {
                AutocompleteState {
                    trigger,
                    trigger_offset,
                    prefix,
                    suggestions: Vec::new(),
                    selected_index: 0,
                    loading: false,
                    fetched_prefix: None,
                }
            }
        },
        None => AutocompleteState {
            trigger,
            trigger_offset,
            prefix,
            suggestions: Vec::new(),
            selected_index: 0,
            loading: false,
            fetched_prefix: None,
        },
    };
    *current = Some(next);
    true
}

impl AutocompleteState {
    /// Selects the previous suggestion, wrapping to the last; nothing
    /// happens without suggestions.
    pub fn select_previous(&mut self)
        ensures
            final(self).suggestions == old(self).suggestions,
            final(self).selected_index == (if old(self).suggestions@.len() == 0 {
                old(self).selected_index as int
            } else {
                wrap_prev(old(self).selected_index as int, old(self).suggestions@.len() as int)
            }),
    {
        if self.suggestions.len() > 0 {
            if self.selected_index == 0 {
                self.selected_index = self.suggestions.len() - 1;
            } else {
                self.selected_index = self.selected_index - 1;
            }
        }
    }

    /// Selects the next suggestion, wrapping to the first; nothing happens
    /// without suggestions.
    pub fn select_next(&mut self)
        requires
            old(self).selected_index < usize::MAX,
        ensures
            final(self).suggestions == old(self).suggestions,
            final(self).selected_index == (if old(self).suggestions@.len() == 0 {
                old(self).selected_index as int
            } else {
                wrap_next(old(self).selected_index as int, old(self).suggestions@.len() as int)
            }),
    {
        if self.suggestions.len() > 0 {
            self.selected_index = (self.selected_index + 1) % self.suggestions.len();
        }
    }
}

/// `@` followed by `login`.
fn mention(login: &String) -> (r: String)
    ensures
        encode_utf8(r@) == seq![64u8] + encode_utf8(login@),
{
    let l = str_bytes(login.as_str());
    let mut v: Vec<u8> = vec![64u8];
    let mut i: usize = 0;
    while i < l.len()
        invariant
            i <= l@.len(),
            v@ == seq![64u8] + l@.subrange(0, i as int),
        decreases l@.len() - i,
    {
        v.push(l[i]);
        i = i + 1;
        assert(v@ =~= seq![64u8] + l@.subrange(0, i as int));
    }
    assert(l@.subrange(0, l@.len() as int) =~= l@);
    proof {
        crate::text::lemma_ascii_valid(seq![64u8]);
        vstd::utf8::valid_utf8_concat(seq![64u8], l@);
        vstd::utf8::decode_utf8_encode_utf8(v@);
    }
    string_from_utf8(v)
}

/// Accepting the selected suggestion: the typed `@prefix` (from the
/// trigger to the cursor) becomes `@login`, with the cursor after it.
pub open spec fn accepted(v: EditorView, ac: AutocompleteState) -> EditorView {
    let login = match ac.suggestions@[ac.selected_index as int] {
        AutocompleteSuggestion::User { login, .. } => login@,
    };
    raw_replace(v, ac.trigger_offset as int, v.head, seq![64u8] + encode_utf8(login))
}

/// Accepts the popup's selected suggestion (see `accepted`) and closes the
/// popup; without a popup or suggestions nothing changes but the popup
/// closing, and the answer is false.
pub fn accept_autocomplete_suggestion(state: &mut EditorState, current: &mut Option<AutocompleteState>) -> (r: bool)
    requires
        old(state).wf(),
        match *old(current) {
            Some(ac) => ac.suggestions@.len() > 0 ==> ac.selected_index < ac.suggestions@.len() && ac.trigger_offset <= old(state)@.head,
            None => true,
        },
    ensures
        final(state).wf(),
        *final(current) is None,
        r == (match *old(current) {
            Some(ac) => ac.suggestions@.len() > 0,
            None => false,
        }),
        !r ==> final(state)@ == old(state)@,
        r ==> final(state)@ == accepted(old(state)@, (*old(current))->0),
{
    let ac = match current.take() {
        Some(ac) => ac,
        None => {
            return false;
        },
    };
    if ac.suggestions.len() == 0 {
        return false;
    }
    let replacement = match &ac.suggestions[ac.selected_index] {
        AutocompleteSuggestion::User { login, .. } => mention(login),
    };
    let cursor = state.cursor().offset;
    state.replace_range(ac.trigger_offset, cursor, replacement.as_str());
    true
}

/// Re-detects the trigger before the cursor and updates the popup (see
/// `popup_after`); without one (or at the start of the text) the popup
/// closes. Returns whether suggestions must be fetched or filtered.
pub fn update_autocomplete_from_cursor(state: &EditorState, current: &mut Option<AutocompleteState>) -> (r: bool)
    requires
        state.wf(),
    ensures
        ({
            let v = state@;
            let ls = line_start_of(v.text, v.head);
            let found = if v.head > 0 { mention_at(decode_utf8(v.text.subrange(ls, v.head)), ls) } else { None };
            match found {
                Some(m) => popup_after(*old(current), AutocompleteTrigger::User, m.0, m.1, r, *final(current)),
                None => !r && *final(current) is None,
            }
        }),
{
    let cursor = state.cursor().offset;
    if cursor > 0 {
        let (line_start, line_text) = state.cursor_line_prefix();
        proof {
            vstd::utf8::decode_utf8_encode_utf8(state@.text.subrange(line_start as int, cursor as int));
        }
        if let Some((trigger, trigger_offset, prefix)) = detect_autocomplete_trigger(line_text.as_str(), line_start) {
            return set_autocomplete_state(current, trigger, trigger_offset, prefix);
        }
    }
    *current = None;
    false
}

} // verus!
