//! The preferred column for vertical cursor movement.

use vstd::prelude::*;

verus! {

/// Tracks the preferred visual column (an x position within a visual row,
/// in whatever unit the caller measures) for vertical cursor movement.
///
/// Preserved across blank lines and short lines so the cursor snaps back
/// when reaching a longer line. Reset by horizontal movement, mouse clicks,
/// text edits, and other actions that invalidate the remembered column.
#[derive(Debug, Clone)]
pub struct ColumnMemory<X> {
    preferred_x: Option<X>,
}

impl<X: Copy> ColumnMemory<X> {
    /// The remembered column, if any.
    pub closed spec fn preferred(&self) -> Option<X> {
        self.preferred_x
    }

    /// Nothing remembered.
    pub fn new() -> (r: Self)
        ensures
            r.preferred() is None,
    {
        ColumnMemory { preferred_x: None }
    }

    /// The target x for vertical movement: the remembered column if set,
    /// otherwise the current within-row x.
    pub fn target_x(&self, current_within_row_x: X) -> (r: X)
        ensures
            r == match self.preferred() {
                Some(x) => x,
                None => current_within_row_x,
            },
    {
        match self.preferred_x {
            Some(x) => x,
            None => current_within_row_x,
        }
    }

    /// Remembers the x the cursor landed at.
    pub fn record(&mut self, x: X)
        ensures
            final(self).preferred() == Some(x),
    {
        self.preferred_x = Some(x);
    }

    /// Remembers `x` only if the target was not clamped to the row's right
    /// edge; when clamped, the row is too short and the old value stays so
    /// the cursor snaps back on a longer row.
    pub fn record_if_not_clamped(&mut self, x: X, was_clamped_to_right: bool)
        ensures
            final(self).preferred() == if was_clamped_to_right { old(self).preferred() } else { Some(x) },
    {
        if !was_clamped_to_right {
            self.preferred_x = Some(x);
        }
    }

    /// Forgets the column.
    pub fn clear(&mut self)
        ensures
            final(self).preferred() is None,
    {
        self.preferred_x = None;
    }

    /// Whether a column is remembered.
    pub fn is_set(&self) -> (r: bool)
        ensures
            r == self.preferred() is Some,
    {
        self.preferred_x.is_some()
    }
}

} // verus!
