//! What a key press asks the editor to do.

use vstd::prelude::*;

verus! {

/// A key as the window reports it.
#[derive(Clone, Copy, Debug, PartialEq, Eq, Structural)]
pub enum Key {
    Backspace,
    Delete,
    Left,
    Right,
    Up,
    Down,
    Home,
    End,
    Enter,
    Space,
    Tab,
    Escape,
    /// Any other key, with the character it types (lower case for letters).
    Char(char),
}

/// The modifier keys held.
#[derive(Clone, Copy, Debug, PartialEq, Eq, Structural)]
pub struct KeyModifiers {
    pub control: bool,
    pub alt: bool,
    pub shift: bool,
    pub platform: bool,
}

/// The editing command a key press maps to.
#[derive(Clone, Copy, Debug, PartialEq, Eq, Structural)]
pub enum KeyCommand {
    /// Nothing for the key handler to do.
    Ignore,
    CloseAutocomplete,
    SelectPreviousSuggestion,
    SelectNextSuggestion,
    AcceptSuggestion,
    MoveLeft { extend: bool },
    MoveRight { extend: bool },
    MoveUp { extend: bool },
    MoveDown { extend: bool },
    MoveToLineStart { extend: bool },
    MoveToLineEnd { extend: bool },
    MoveToStart { extend: bool },
    MoveToEnd { extend: bool },
    DeleteBackward,
    DeleteForward,
    DeleteToLineEnd,
    Enter,
    ShiftEnter,
    ShiftAltEnter,
    InsertSpace,
    /// Four spaces, typed in a code block in place of Tab.
    InsertIndent,
    Tab,
    ShiftTab,
    SelectAll,
    Copy,
    Cut,
    Paste,
    Undo,
    Redo,
    /// After `>` was typed: complete a block quote marker.
    CompleteBlockquote,
    /// After a backtick or tilde was typed: complete a code fence.
    CompleteCodeFence,
}

/// Keys that steer an open autocomplete popup with `n` suggestions.
pub open spec fn popup_command(key: Key, n: int) -> Option<KeyCommand> {
    match key {
        Key::Escape => Some(KeyCommand::CloseAutocomplete),
        Key::Up => if n > 0 { Some(KeyCommand::SelectPreviousSuggestion) } else { None },
        Key::Down => if n > 0 { Some(KeyCommand::SelectNextSuggestion) } else { None },
        Key::Enter => if n > 0 { Some(KeyCommand::AcceptSuggestion) } else { None },
        Key::Tab => if n > 0 { Some(KeyCommand::AcceptSuggestion) } else { None },
        _ => None,
    }
}

/// Emacs-style Control shortcuts of the Mac key mode.
pub open spec fn mac_command(key: Key, m: KeyModifiers) -> Option<KeyCommand> {
    if !(m.control && !m.alt) {
        None
    } else {
        match key {
            Key::Char(c) => if c == 'a' && !m.shift {
                Some(KeyCommand::MoveToLineStart { extend: m.shift })
            } else if c == 'e' {
                Some(KeyCommand::MoveToLineEnd { extend: m.shift })
            } else if c == 'b' {
                Some(KeyCommand::MoveLeft { extend: m.shift })
            } else if c == 'f' {
                Some(KeyCommand::MoveRight { extend: m.shift })
            } else if c == 'p' {
                Some(KeyCommand::MoveUp { extend: m.shift })
            } else if c == 'n' {
                Some(KeyCommand::MoveDown { extend: m.shift })
            } else if c == 'd' {
                Some(KeyCommand::DeleteForward)
            } else if c == 'h' {
                Some(KeyCommand::DeleteBackward)
            } else if c == 'k' {
                Some(KeyCommand::DeleteToLineEnd)
            } else {
                None
            },
            _ => None,
        }
    }
}

/// The command of a key outside the popup and the Mac shortcuts.
pub open spec fn plain_command(key: Key, m: KeyModifiers, mac_mode: bool, in_code_block: bool) -> KeyCommand {
    let cmd = m.control || m.platform;
    match key {
        Key::Backspace => KeyCommand::DeleteBackward,
        Key::Delete => KeyCommand::DeleteForward,
        Key::Left => KeyCommand::MoveLeft { extend: m.shift },
        Key::Right => KeyCommand::MoveRight { extend: m.shift },
        Key::Up => KeyCommand::MoveUp { extend: m.shift },
        Key::Down => KeyCommand::MoveDown { extend: m.shift },
        Key::Home => if cmd { KeyCommand::MoveToStart { extend: m.shift } } else { KeyCommand::MoveToLineStart { extend: m.shift } },
        Key::End => if cmd { KeyCommand::MoveToEnd { extend: m.shift } } else { KeyCommand::MoveToLineEnd { extend: m.shift } },
        Key::Enter => if m.shift && m.alt {
            KeyCommand::ShiftAltEnter
        } else if m.shift {
            KeyCommand::ShiftEnter
        } else {
            KeyCommand::Enter
        },
        Key::Space => KeyCommand::InsertSpace,
        Key::Tab => if in_code_block {
            KeyCommand::InsertIndent
        } else if m.shift {
            KeyCommand::ShiftTab
        } else {
            KeyCommand::Tab
        },
        Key::Escape => KeyCommand::Ignore,
        Key::Char(c) => if c == 'a' && cmd && (!mac_mode || (m.control && m.shift)) {
            KeyCommand::SelectAll
        } else if c == 'c' && cmd {
            KeyCommand::Copy
        } else if c == 'x' && cmd {
            KeyCommand::Cut
        } else if c == 'v' && cmd {
            KeyCommand::Paste
        } else if c == 'z' && cmd {
            if m.shift { KeyCommand::Redo } else { KeyCommand::Undo }
        } else if c == 'y' && m.control {
            KeyCommand::Redo
        } else if c == ' ' {
            KeyCommand::InsertSpace
        } else if c == '>' {
            KeyCommand::CompleteBlockquote
        } else if c == '`' || c == '~' {
            KeyCommand::CompleteCodeFence
        } else {
            KeyCommand::Ignore
        },
    }
}

/// The command of a key press: the autocomplete popup (with `popup`
/// suggestions, when open) takes its keys first, then the Mac-mode Control
/// shortcuts, then the editing keys; blocked input does nothing.
pub open spec fn key_command_spec(key: Key, m: KeyModifiers, mac_mode: bool, popup: Option<usize>, in_code_block: bool, blocked: bool) -> KeyCommand {
    if blocked {
        KeyCommand::Ignore
    } else {
        match (match popup {
            Some(n) => popup_command(key, n as int),
            None => None,
        }) {
            Some(c) => c,
            None => match (if mac_mode { mac_command(key, m) } else { None }) {
                Some(c) => c,
                None => plain_command(key, m, mac_mode, in_code_block),
            },
        }
    }
}

fn popup_command_exec(key: Key, n: usize) -> (r: Option<KeyCommand>)
    ensures
        r == popup_command(key, n as int),
{
    match key {
        Key::Escape => Some(KeyCommand::CloseAutocomplete),
        Key::Up => if n > 0 { Some(KeyCommand::SelectPreviousSuggestion) } else { None },
        Key::Down => if n > 0 { Some(KeyCommand::SelectNextSuggestion) } else { None },
        Key::Enter | Key::Tab => if n > 0 { Some(KeyCommand::AcceptSuggestion) } else { None },
        _ => None,
    }
}

fn mac_command_exec(key: Key, m: KeyModifiers) -> (r: Option<KeyCommand>)
    ensures
        r == mac_command(key, m),
{
    if !(m.control && !m.alt) {
        return None;
    }
    match key {
        Key::Char(c) => {
            if c == 'a' && !m.shift {
                Some(KeyCommand::MoveToLineStart { extend: m.shift })
            } else if c == 'e' {
                Some(KeyCommand::MoveToLineEnd { extend: m.shift })
            } else if c == 'b' {
                Some(KeyCommand::MoveLeft { extend: m.shift })
            } else if c == 'f' {
                Some(KeyCommand::MoveRight { extend: m.shift })
            } else if c == 'p' {
                Some(KeyCommand::MoveUp { extend: m.shift })
            } else if c == 'n' {
                Some(KeyCommand::MoveDown { extend: m.shift })
            } else if c == 'd' {
                Some(KeyCommand::DeleteForward)
            } else if c == 'h' {
                Some(KeyCommand::DeleteBackward)
            } else if c == 'k' {
                Some(KeyCommand::DeleteToLineEnd)
            } else {
                None
            }
        },
        _ => None,
    }
}

fn plain_command_exec(key: Key, m: KeyModifiers, mac_mode: bool, in_code_block: bool) -> (r: KeyCommand)
    ensures
        r == plain_command(key, m, mac_mode, in_code_block),
{
    let cmd = m.control || m.platform;
    match key {
        Key::Backspace => KeyCommand::DeleteBackward,
        Key::Delete => KeyCommand::DeleteForward,
        Key::Left => KeyCommand::MoveLeft { extend: m.shift },
        Key::Right => KeyCommand::MoveRight { extend: m.shift },
        Key::Up => KeyCommand::MoveUp { extend: m.shift },
        Key::Down => KeyCommand::MoveDown { extend: m.shift },
        Key::Home => if cmd { KeyCommand::MoveToStart { extend: m.shift } } else { KeyCommand::MoveToLineStart { extend: m.shift } },
        Key::End => if cmd { KeyCommand::MoveToEnd { extend: m.shift } } else { KeyCommand::MoveToLineEnd { extend: m.shift } },
        Key::Enter => {
            if m.shift && m.alt {
                KeyCommand::ShiftAltEnter
            } else if m.shift {
                KeyCommand::ShiftEnter
            } else {
                KeyCommand::Enter
            }
        },
        Key::Space => KeyCommand::InsertSpace,
        Key::Tab => {
            if in_code_block {
                KeyCommand::InsertIndent
            } else if m.shift {
                KeyCommand::ShiftTab
            } else {
                KeyCommand::Tab
            }
        },
        Key::Escape => KeyCommand::Ignore,
        Key::Char(c) => {
            if c == 'a' && cmd && (!mac_mode || (m.control && m.shift)) {
                KeyCommand::SelectAll
            } else if c == 'c' && cmd {
                KeyCommand::Copy
            } else if c == 'x' && cmd {
                KeyCommand::Cut
            } else if c == 'v' && cmd {
                KeyCommand::Paste
            } else if c == 'z' && cmd {
                if m.shift { KeyCommand::Redo } else { KeyCommand::Undo }
            } else if c == 'y' && m.control {
                KeyCommand::Redo
            } else if c == ' ' {
                KeyCommand::InsertSpace
            } else if c == '>' {
                KeyCommand::CompleteBlockquote
            } else if c == '`' || c == '~' {
                KeyCommand::CompleteCodeFence
            } else {
                KeyCommand::Ignore
            }
        },
    }
}

/// The command of a key press: see `key_command_spec`.
pub fn key_command(key: Key, m: KeyModifiers, mac_mode: bool, popup: Option<usize>, in_code_block: bool, blocked: bool) -> (r: KeyCommand)
    ensures
        r == key_command_spec(key, m, mac_mode, popup, in_code_block, blocked),
{
    if blocked {
        return KeyCommand::Ignore;
    }
    let from_popup = match popup {
        Some(n) => popup_command_exec(key, n),
        None => None,
    };
    if let Some(c) = from_popup {
        return c;
    }
    let from_mac = if mac_mode { mac_command_exec(key, m) } else { None };
    if let Some(c) = from_mac {
        return c;
    }
    plain_command_exec(key, m, mac_mode, in_code_block)
}

} // verus!
