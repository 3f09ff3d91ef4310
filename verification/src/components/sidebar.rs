//! The sidebar component (bookmarks, remotes and tags).

use vstd::prelude::*;

verus! {

/// Messages for sidebar interactions.
#[derive(Debug, Clone)]
pub enum Message {
    SelectBookmark(String),
}

/// State for the sidebar component; it holds no data yet.
#[derive(Debug, Default)]
pub struct State {}

/// Handles a sidebar message; selecting a bookmark changes nothing yet.
pub fn update(state: &mut State, message: Message)
    ensures
        *final(state) == *old(state),
{
    match message {
        Message::SelectBookmark(_name) => {},
    }
}

} // verus!
