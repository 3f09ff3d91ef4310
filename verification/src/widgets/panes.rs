//! The panes of the window.

use vstd::prelude::*;

verus! {

/// Types of panes in the application.
#[derive(Debug, Clone, Copy, PartialEq, Eq, Structural)]
pub enum PaneType {
    Sidebar,
    CommitList,
    RightPanel,
}

} // verus!
