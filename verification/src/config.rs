//! The run configuration handed in from the outside world.

use vstd::prelude::*;

verus! {

/// What a run needs: board dimensions (when unset, the caller falls back to
/// the detected display size), the wrap-around flag, and the pattern path.
pub struct Args {
    /// Height of the map; unset means the height of the display.
    pub height: Option<i32>,
    /// Width of the map; unset means the width of the display.
    pub width: Option<i32>,
    /// Wrap cells around the edges.
    pub around: bool,
    /// Path to the pattern file.
    pub pattern_path: String,
}

/// A requested dimension wins over the detected one.
pub fn pick_dimension(requested: Option<i32>, detected: i32) -> (r: i32)
    ensures
        r == match requested {
            Some(v) => v,
            None => detected,
        },
{
    match requested {
        Some(v) => v,
        None => detected,
    }
}

} // verus!
