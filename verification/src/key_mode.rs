//! Keyboard layout mode: Windows-style or Mac-style shortcuts.

use vstd::prelude::*;

verus! {

/// Which shortcut convention the editor follows.
#[derive(Clone, Copy, PartialEq, Eq, Debug, Structural)]
pub enum KeyMode {
    Win,
    Mac,
}

impl Default for KeyMode {
    /// Mac-style shortcuts by default.
    fn default() -> (r: KeyMode)
        ensures
            r == KeyMode::Mac,
    {
        KeyMode::Mac
    }
}

/// The other mode.
pub open spec fn other_mode(m: KeyMode) -> KeyMode {
    match m {
        KeyMode::Win => KeyMode::Mac,
        KeyMode::Mac => KeyMode::Win,
    }
}

impl KeyMode {
    /// Whether Mac-style shortcuts are on.
    pub fn is_mac_mode(self) -> (r: bool)
        ensures
            r == (self == KeyMode::Mac),
    {
        match self {
            KeyMode::Mac => true,
            KeyMode::Win => false,
        }
    }

    /// The other mode.
    pub fn toggled(self) -> (r: KeyMode)
        ensures
            r == other_mode(self),
    {
        match self {
            KeyMode::Win => KeyMode::Mac,
            KeyMode::Mac => KeyMode::Win,
        }
    }
}

/// Toggling changes the mode, and toggling twice gives it back.
pub proof fn lemma_toggle_twice(m: KeyMode)
    ensures
        other_mode(m) != m,
        other_mode(other_mode(m)) == m,
{
}

} // verus!
