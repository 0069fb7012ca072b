//! File operations: what the user asked for, the answer to the unsaved
//! changes prompt, and the file to open at start.

use vstd::prelude::*;

verus! {

/// A file operation requested by the user.
#[derive(Debug, Clone, Copy, PartialEq, Eq, Structural)]
pub enum FileOp {
    New,
    Open,
    Save,
    SaveAs,
}

/// The answer to "save unsaved changes?".
#[derive(Debug, Clone, Copy, PartialEq, Eq, Structural)]
pub enum DiscardChoice {
    Save,
    DontSave,
    Cancel,
}

impl DiscardChoice {
    /// Whether to go on replacing (or closing) the document, and whether to
    /// save it first; after a save, going on waits for the document to be
    /// clean.
    pub fn proceed_and_save(self) -> (r: (bool, bool))
        ensures
            r == (match self {
                DiscardChoice::Save => (true, true),
                DiscardChoice::DontSave => (true, false),
                DiscardChoice::Cancel => (false, false),
            }),
    {
        match self {
            DiscardChoice::Save => (true, true),
            DiscardChoice::DontSave => (true, false),
            DiscardChoice::Cancel => (false, false),
        }
    }
}

/// Start-up options: a file to open, or the demo document.
pub struct Config {
    pub file: Option<String>,
    pub demo: bool,
}

/// The file to open at start, if one was given.
pub fn initial_file_path(config: &Config) -> (r: Option<String>)
    ensures
        match config.file {
            Some(p) => r matches Some(q) && q@ == p@,
            None => r is None,
        },
{
    match &config.file {
        Some(path) => Some(path.clone()),
        None => None,
    }
}

} // verus!
