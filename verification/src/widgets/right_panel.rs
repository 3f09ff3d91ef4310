//! The right panel: a summary tab and one tab per changed file.

use vstd::prelude::*;

use crate::path_set::PathSet;
use crate::repo::FileChange;

verus! {

/// Tab types for the right panel.
#[derive(Debug, Clone, PartialEq, Eq)]
pub enum Tab {
    Summary,
    File(String),
}

/// A tab by the path it shows.
pub enum TabView {
    Summary,
    File(Seq<char>),
}

impl View for Tab {
    type V = TabView;

    open spec fn view(&self) -> TabView {
        match self {
            Tab::Summary => TabView::Summary,
            Tab::File(p) => TabView::File(p@),
        }
    }
}

/// Messages of the summary tab that the panel handles.
#[derive(Debug, Clone)]
pub enum SummaryMessage {
    ToggleFile(String),
    CollapseAll,
    ExpandAll,
}

/// Messages for right panel interactions.
#[derive(Debug, Clone)]
pub enum Message {
    SwitchTab(Tab),
    Summary(SummaryMessage),
}

/// Right panel state.
#[derive(Debug)]
pub struct RightPanel {
    pub active_tab: Tab,
    pub expanded_files: PathSet,
}

/// The expanded sections after toggling the section of `path`: it closes
/// when it was open, and opens otherwise.
pub open spec fn toggled(expanded: Set<Seq<char>>, path: Seq<char>) -> Set<Seq<char>> {
    if expanded.contains(path) {
        expanded.remove(path)
    } else {
        expanded.insert(path)
    }
}

/// Toggling a file section twice leaves the sections as they were.
pub proof fn lemma_toggle_twice(expanded: Set<Seq<char>>, path: Seq<char>)
    ensures
        toggled(toggled(expanded, path), path) == expanded,
{
    if expanded.contains(path) {
        assert(expanded.remove(path).insert(path) =~= expanded);
    } else {
        assert(expanded.insert(path).remove(path) =~= expanded);
    }
}

/// The paths of a list of file changes.
pub open spec fn change_paths(files: Seq<FileChange>) -> Set<Seq<char>> {
    Set::new(|p: Seq<char>| exists|i: int| 0 <= i < files.len() && #[trigger] files[i].path@ == p)
}

impl RightPanel {
    pub fn new() -> (res: RightPanel)
        ensures
            res.active_tab@ == TabView::Summary,
            res.expanded_files@ == Set::<Seq<char>>::empty(),
    {
        RightPanel { active_tab: Tab::Summary, expanded_files: PathSet::new() }
    }

    /// Switches tabs, or opens/closes file sections of the summary. Expanding
    /// every file needs the file list and is left to `expand_all`.
    pub fn update(&mut self, message: Message)
        ensures
            match message {
                Message::SwitchTab(tab) => final(self).active_tab == tab
                    && final(self).expanded_files@ == old(self).expanded_files@,
                Message::Summary(SummaryMessage::ToggleFile(path)) => final(self).active_tab
                    == old(self).active_tab && final(self).expanded_files@ == toggled(
                    old(self).expanded_files@,
                    path@,
                ),
                Message::Summary(SummaryMessage::CollapseAll) => final(self).active_tab == old(
                    self,
                ).active_tab && final(self).expanded_files@ == Set::<Seq<char>>::empty(),
                Message::Summary(SummaryMessage::ExpandAll) => final(self).active_tab == old(
                    self,
                ).active_tab && final(self).expanded_files@ == old(self).expanded_files@,
            },
    {
        match message {
            Message::SwitchTab(tab) => {
                self.active_tab = tab;
            },
            Message::Summary(msg) => match msg {
                SummaryMessage::ToggleFile(path) => {
                    if self.expanded_files.contains(&path) {
                        self.expanded_files.remove(&path);
                    } else {
                        self.expanded_files.insert(path);
                    }
                },
                SummaryMessage::CollapseAll => {
                    self.expanded_files.clear();
                },
                SummaryMessage::ExpandAll => {},
            },
        }
    }

    /// Expands the section of every file in `files`.
    pub fn expand_all(&mut self, files: &Vec<FileChange>)
        ensures
            final(self).active_tab == old(self).active_tab,
            final(self).expanded_files@ == old(self).expanded_files@.union(change_paths(files@)),
    {
        expand_paths(&mut self.expanded_files, files);
    }

    /// Back to the summary tab with every section collapsed.
    pub fn clear(&mut self)
        ensures
            final(self).active_tab@ == TabView::Summary,
            final(self).expanded_files@ == Set::<Seq<char>>::empty(),
    {
        self.active_tab = Tab::Summary;
        self.expanded_files.clear();
    }
}

/// Adds the path of every file in `files` to `set`.
pub fn expand_paths(set: &mut PathSet, files: &Vec<FileChange>)
    ensures
        final(set)@ == old(set)@.union(change_paths(files@)),
{
    let mut i: usize = 0;
    while i < files.len()
        invariant
            i <= files@.len(),
            set@ == old(set)@.union(change_paths(files@.take(i as int))),
        decreases files@.len() - i,
    {
        let ghost before = set@;
        set.insert(files[i].path.clone());
        proof {
            assert forall|p: Seq<char>| change_paths(files@.take(i + 1)).contains(p) <==> (
            change_paths(files@.take(i as int)).contains(p) || p == files@[i as int].path@) by {
                if change_paths(files@.take(i + 1)).contains(p) {
                    let k = choose|k: int|
                        0 <= k < files@.take(i + 1).len() && #[trigger] files@.take(i + 1)[k].path@
                            == p;
                    if k < i {
                        assert(files@.take(i as int)[k] == files@.take(i + 1)[k]);
                    }
                }
                if change_paths(files@.take(i as int)).contains(p) {
                    let k = choose|k: int|
                        0 <= k < files@.take(i as int).len() && #[trigger] files@.take(
                            i as int,
                        )[k].path@ == p;
                    assert(files@.take(i + 1)[k] == files@.take(i as int)[k]);
                }
                if p == files@[i as int].path@ {
                    assert(files@.take(i + 1)[i as int] == files@[i as int]);
                }
            }
            assert(set@ =~= old(set)@.union(change_paths(files@.take(i + 1))));
        }
        i = i + 1;
    }
    proof {
        assert(files@.take(files@.len() as int) =~= files@);
    }
}

} // verus!
