//! The mark left by the last refresh run, changed or not.
//!
//! The cache's own build time stands still when a refresh finds nothing new,
//! so without this mark a healthy machine looks hours out of date.

use vstd::prelude::*;

verus! {

/// When the last check finished, and whether it changed the index.
#[derive(Debug, Clone, Copy, Default, PartialEq, Eq, Structural)]
pub struct LastCheck {
    /// Unix seconds when the check finished.
    pub at_unix: i64,
    /// Whether that check changed anything: "checked, nothing new" against
    /// "checked, and there was".
    pub changed: bool,
}

impl LastCheck {
    /// The mark for a check that just finished at `at_unix`.
    pub fn new(at_unix: i64, changed: bool) -> (r: Self)
        ensures
            r == (LastCheck { at_unix, changed }),
    {
        LastCheck { at_unix, changed }
    }
}

} // verus!
