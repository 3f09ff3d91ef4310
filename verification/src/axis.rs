//! The split axis of a pane grid.

use vstd::prelude::*;

verus! {

/// A fixed reference line for the measurement of coordinates.
#[derive(Debug, Clone, Copy, Hash, PartialEq, Eq, Structural)]
pub enum Axis {
    /// The horizontal axis: a split into a top and a bottom part.
    Horizontal,
    /// The vertical axis: a split into a left and a right part.
    Vertical,
}

} // verus!
