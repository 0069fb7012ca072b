//! The window title shown in the title bar.

use vstd::prelude::*;
use vstd::string::StringExecFns;

verus! {

/// The title for a document: its file name, or "untitled" when it has
/// none, after "* " when it has unsaved changes.
pub fn window_title(file_name: Option<&str>, dirty: bool) -> (r: String)
    ensures
        r@ == (if dirty { "* "@ } else { ""@ }) + match file_name {
            Some(n) => n@,
            None => "untitled"@,
        },
{
    let mut t = if dirty {
        String::from_str("* ")
    } else {
        String::from_str("")
    };
    match file_name {
        Some(n) => t.append(n),
        None => t.append("untitled"),
    }
    t
}

} // verus!
