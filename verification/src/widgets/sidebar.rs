//! The sidebar that lists bookmarks, remotes and tags.

use vstd::prelude::*;

verus! {

/// Messages for sidebar interactions.
#[derive(Debug, Clone)]
pub enum Message {
    SelectBookmark(String),
}

/// Sidebar showing bookmarks, remotes and tags. It holds no state yet.
pub struct Sidebar {}

impl Sidebar {
    pub fn new() -> (res: Sidebar) {
        Sidebar {  }
    }

    /// Handles a sidebar message; selecting a bookmark changes nothing yet.
    pub fn update(&mut self, message: Message)
        ensures
            *final(self) == *old(self),
    {
        match message {
            Message::SelectBookmark(_name) => {},
        }
    }
}

} // verus!
