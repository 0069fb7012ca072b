//! The toolbar: its buttons, what each one does, and their tooltips.

use vstd::prelude::*;
use vstd::string::{StrSliceExecFns, StringExecFns};
use vstd::utf8::encode_utf8;
use crate::text::str_bytes;

verus! {

/// What a toolbar button does.
#[derive(Clone, Copy, Debug, PartialEq, Eq, Structural)]
pub enum ToolbarAction {
    ToggleAbout,
    NewFile,
    OpenFile,
    Save,
    ToggleFind,
    NewWindow,
    ToggleKeyMode,
}

/// A toolbar button: its label, what it does, and its description.
pub struct ToolbarButton {
    pub name: String,
    pub action: ToolbarAction,
    pub description: &'static str,
}

impl ToolbarButton {
    pub fn new(name: String, description: &'static str, action: ToolbarAction) -> (r: ToolbarButton)
        ensures
            r.name@ == name@,
            r.description@ == description@,
            r.action == action,
    {
        ToolbarButton { name, action, description }
    }
}

/// `s` with every leading copy of `p` removed (what
/// `str::trim_start_matches` does with a string pattern).
pub open spec fn strip_prefixes(s: Seq<char>, p: Seq<char>) -> Seq<char>
    decreases s.len(),
{
    if p.len() > 0 && p.len() <= s.len() && s.subrange(0, p.len() as int) == p {
        strip_prefixes(s.subrange(p.len() as int, s.len() as int), p)
    } else {
        s
    }
}

/// The tooltip for a button with label `name` and description `desc`.
pub open spec fn tooltip_of(name: Seq<char>, desc: Seq<char>) -> Seq<char> {
    if desc == "About"@ {
        "About rustmd"@
    } else if desc == "New file"@ {
        "New file (Ctrl+Alt+N)"@
    } else if desc == "Open file"@ {
        "Open file (Ctrl+O)"@
    } else if desc == "Save"@ {
        "Save (Ctrl+S)"@
    } else if desc == "Find & Replace"@ {
        "Find and replace"@
    } else if desc == "New window"@ {
        "New window (Ctrl+Shift+N)"@
    } else if desc == "Keyboard mode"@ {
        "Keyboard mode: "@ + strip_prefixes(name, "⌨ "@)
    } else {
        desc
    }
}

/// Whether two strings are equal.
fn str_eq(a: &str, b: &str) -> (r: bool)
    ensures
        r == (a@ == b@),
{
    let x = str_bytes(a);
    let y = str_bytes(b);
    let mut same = x.len() == y.len();
    let mut i: usize = 0;
    while same && i < x.len()
        invariant
            x@ == encode_utf8(a@),
            y@ == encode_utf8(b@),
            same ==> x@.len() == y@.len(),
            same ==> forall|j: int| 0 <= j < i ==> x@[j] == y@[j],
            !same ==> x@ != y@,
        decreases x@.len() - i,
    {
        if x[i] != y[i] {
            same = false;
        }
        i = i + 1;
    }
    proof {
        if same {
            assert(x@ =~= y@);
            vstd::utf8::encode_utf8_decode_utf8(a@);
            vstd::utf8::encode_utf8_decode_utf8(b@);
        }
    }
    same
}

/// The toolbar's buttons; the keyboard mode button shows the mode.
pub fn get_toolbar_buttons(mac_mode: bool) -> (r: Vec<ToolbarButton>)
    ensures
        r@.len() == 7,
        r@[0].name@ == "\u{1F980}"@ && r@[0].description@ == "About"@ && r@[0].action == ToolbarAction::ToggleAbout,
        r@[1].name@ == "\u{1F4C4}"@ && r@[1].description@ == "New file"@ && r@[1].action == ToolbarAction::NewFile,
        r@[2].name@ == "\u{1F4C2}"@ && r@[2].description@ == "Open file"@ && r@[2].action == ToolbarAction::OpenFile,
        r@[3].name@ == "\u{1F4BE}"@ && r@[3].description@ == "Save"@ && r@[3].action == ToolbarAction::Save,
        r@[4].name@ == "\u{1F50D}"@ && r@[4].description@ == "Find & Replace"@ && r@[4].action
            == ToolbarAction::ToggleFind,
        r@[5].name@ == "\u{1F532}"@ && r@[5].description@ == "New window"@ && r@[5].action == ToolbarAction::NewWindow,
        r@[6].name@ == (if mac_mode { "⌨ Mac"@ } else { "⌨ Win"@ }) && r@[6].description@ == "Keyboard mode"@
            && r@[6].action == ToolbarAction::ToggleKeyMode,
{
    let mode_name = if mac_mode {
        String::from_str("⌨ Mac")
    } else {
        String::from_str("⌨ Win")
    };
    let mut r: Vec<ToolbarButton> = Vec::new();
    r.push(ToolbarButton::new(String::from_str("\u{1F980}"), "About", ToolbarAction::ToggleAbout));
    r.push(ToolbarButton::new(String::from_str("\u{1F4C4}"), "New file", ToolbarAction::NewFile));
    r.push(ToolbarButton::new(String::from_str("\u{1F4C2}"), "Open file", ToolbarAction::OpenFile));
    r.push(ToolbarButton::new(String::from_str("\u{1F4BE}"), "Save", ToolbarAction::Save));
    r.push(ToolbarButton::new(String::from_str("\u{1F50D}"), "Find & Replace", ToolbarAction::ToggleFind));
    r.push(ToolbarButton::new(String::from_str("\u{1F532}"), "New window", ToolbarAction::NewWindow));
    r.push(ToolbarButton::new(mode_name, "Keyboard mode", ToolbarAction::ToggleKeyMode));
    r
}

/// The tooltip shown for `button`: see `tooltip_of`.
pub fn tooltip_text(button: &ToolbarButton) -> (r: String)
    ensures
        r@ == tooltip_of(button.name@, button.description@),
{
    let d = button.description;
    if str_eq(d, "About") {
        String::from_str("About rustmd")
    } else if str_eq(d, "New file") {
        String::from_str("New file (Ctrl+Alt+N)")
    } else if str_eq(d, "Open file") {
        String::from_str("Open file (Ctrl+O)")
    } else if str_eq(d, "Save") {
        String::from_str("Save (Ctrl+S)")
    } else if str_eq(d, "Find & Replace") {
        String::from_str("Find and replace")
    } else if str_eq(d, "New window") {
        String::from_str("New window (Ctrl+Shift+N)")
    } else if str_eq(d, "Keyboard mode") {
        let mut t = String::from_str("Keyboard mode: ");
        let rest = strip_mode_marker(button.name.as_str());
        t.append(rest);
        t
    } else {
        String::from_str(d)
    }
}

/// `s` with every leading "⌨ " removed.
fn strip_mode_marker(s: &str) -> (r: &str)
    ensures
        r@ == strip_prefixes(s@, "⌨ "@),
{
    proof {
        reveal_strlit("⌨ ");
    }
    let n = s.unicode_len();
    let mut i: usize = 0;
    assert(s@.subrange(0, n as int) =~= s@);
    while n - i >= 2 && s.get_char(i) == '⌨' && s.get_char(i + 1) == ' '
        invariant
            n == s@.len(),
            i <= n,
            "⌨ "@ =~= seq!['⌨', ' '],
            strip_prefixes(s@, "⌨ "@) == strip_prefixes(s@.subrange(i as int, n as int), "⌨ "@),
        decreases n - i,
    {
        proof {
            let t = s@.subrange(i as int, n as int);
            assert(t.subrange(0, 2) =~= seq!['⌨', ' ']);
            assert(t.subrange(2, t.len() as int) =~= s@.subrange(i + 2, n as int));
        }
        i = i + 2;
    }
    proof {
        let t = s@.subrange(i as int, n as int);
        if 2 <= t.len() && t.subrange(0, 2) == seq!['⌨', ' '] {
            assert(t[0] == s@[i as int] && t[1] == s@[i + 1]);
        }
    }
    s.substring_char(i, n)
}

} // verus!
