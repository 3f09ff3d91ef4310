//! The right panel component: tabs, expanded file sections and the
//! description editor.

use vstd::prelude::*;

use crate::components::description_editor;
use crate::components::summary;
use crate::path_set::PathSet;
use crate::repo::{CommitInfo, FileChange};
pub use crate::widgets::right_panel::{change_paths, expand_paths, toggled, Tab, TabView};

verus! {

/// Messages for right panel interactions.
#[derive(Debug, Clone)]
pub enum Message {
    SwitchTab(Tab),
    Summary(summary::Message),
}

/// Right panel state.
#[derive(Debug)]
pub struct State {
    pub active_tab: Tab,
    pub expanded_files: PathSet,
    pub description_editor: description_editor::State,
}

impl State {
    pub fn new() -> (res: State)
        ensures
            res.active_tab@ == TabView::Summary,
            res.expanded_files@ == Set::<Seq<char>>::empty(),
            !res.description_editor.is_editing(),
            res.description_editor.wf(),
    {
        State {
            active_tab: Tab::Summary,
            expanded_files: PathSet::new(),
            description_editor: description_editor::State::new(),
        }
    }

    /// The description draft to save.
    pub fn get_description_draft(&self) -> (res: String)
        ensures
            res@ == self.description_editor.spec_text(),
    {
        self.description_editor.get_text()
    }
}

impl Default for State {
    fn default() -> (res: State)
        ensures
            res.active_tab@ == TabView::Summary,
            res.expanded_files@ == Set::<Seq<char>>::empty(),
            !res.description_editor.is_editing(),
            res.description_editor.wf(),
    {
        State::new()
    }
}

/// What handling `message` makes of the panel `old`, `description` being the
/// description of the selected commit when one is selected: a tab switch, a
/// file section toggled, all sections collapsed, editing started, or the
/// editor's own handling of an edit, an undo, a redo or a cancel. Expanding
/// every section and saving are left to the caller and change nothing here.
pub open spec fn handled(old: State, new: State, message: Message, description: Option<Seq<char>>) -> bool {
    &&& new.description_editor.wf()
    &&& match message {
        Message::SwitchTab(tab) => {
            &&& new.active_tab == tab
            &&& new.expanded_files@ == old.expanded_files@
            &&& new.description_editor == old.description_editor
        },
        Message::Summary(m) => {
            &&& new.active_tab == old.active_tab
            &&& match m {
                summary::Message::ToggleFile(path) => {
                    &&& new.expanded_files@ == toggled(old.expanded_files@, path@)
                    &&& new.description_editor == old.description_editor
                },
                summary::Message::CollapseAll => {
                    &&& new.expanded_files@ == Set::<Seq<char>>::empty()
                    &&& new.description_editor == old.description_editor
                },
                summary::Message::ExpandAll => {
                    &&& new.expanded_files@ == old.expanded_files@
                    &&& new.description_editor == old.description_editor
                },
                summary::Message::StartEditDescription => {
                    &&& new.expanded_files@ == old.expanded_files@
                    &&& match description {
                        Some(d) => {
                            &&& new.description_editor.is_editing()
                            &&& new.description_editor.spec_text() == d
                            &&& new.description_editor.spec_original() == d
                            &&& new.description_editor.spec_undo() == (description_editor::UndoView {
                                history: Seq::empty(),
                                future: Seq::empty(),
                                current: d,
                                last_snapshot_len: description_editor::byte_len(d) as usize,
                            })
                        },
                        None => new.description_editor == old.description_editor,
                    }
                },
                summary::Message::DescriptionEditor(em) => {
                    &&& new.expanded_files@ == old.expanded_files@
                    &&& match em {
                        description_editor::Message::Cancel => {
                            &&& !new.description_editor.is_editing()
                            &&& new.description_editor.spec_text() == Seq::<char>::empty()
                            &&& new.description_editor.spec_original() == Seq::<char>::empty()
                            &&& new.description_editor.spec_undo().history.len() == 0
                            &&& new.description_editor.spec_undo().future.len() == 0
                        },
                        description_editor::Message::Save => new.description_editor
                            == old.description_editor,
                        description_editor::Message::Edited(t) => {
                            &&& new.description_editor.spec_undo() == description_editor::spec_push(
                                old.description_editor.spec_undo(),
                                t@,
                            )
                            &&& new.description_editor.is_editing() == old.description_editor.is_editing()
                            &&& new.description_editor.spec_original() == old.description_editor.spec_original()
                        },
                        description_editor::Message::Undo => {
                            &&& new.description_editor.spec_undo() == description_editor::spec_undo(
                                old.description_editor.spec_undo(),
                            ).0
                            &&& new.description_editor.is_editing() == old.description_editor.is_editing()
                            &&& new.description_editor.spec_original() == old.description_editor.spec_original()
                        },
                        description_editor::Message::Redo => {
                            &&& new.description_editor.spec_undo() == description_editor::spec_redo(
                                old.description_editor.spec_undo(),
                            ).0
                            &&& new.description_editor.is_editing() == old.description_editor.is_editing()
                            &&& new.description_editor.spec_original() == old.description_editor.spec_original()
                        },
                    }
                },
            }
        },
    }
}

/// The description of a commit, when there is one.
pub open spec fn description_of(commit: Option<&CommitInfo>) -> Option<Seq<char>> {
    match commit {
        Some(c) => Some(c.description@),
        None => None,
    }
}

/// Updates the panel: switching tabs, opening and closing file sections,
/// starting to edit the selected commit's description and passing editor
/// messages on. Expanding every section and saving are left to the caller,
/// which has the file list and the repository.
pub fn update(state: &mut State, message: Message, commit: Option<&CommitInfo>)
    requires
        old(state).description_editor.wf(),
    ensures
        handled(*old(state), *final(state), message, description_of(commit)),
{
    match message {
        Message::SwitchTab(tab) => {
            state.active_tab = tab;
        },
        Message::Summary(msg) => match msg {
            summary::Message::ToggleFile(path) => {
                if state.expanded_files.contains(&path) {
                    state.expanded_files.remove(&path);
                } else {
                    state.expanded_files.insert(path);
                }
            },
            summary::Message::CollapseAll => {
                state.expanded_files.clear();
            },
            summary::Message::ExpandAll => {},
            summary::Message::StartEditDescription => {
                if let Some(commit) = commit {
                    state.description_editor.start_editing(commit.description.as_str());
                }
            },
            summary::Message::DescriptionEditor(editor_msg) => {
                match editor_msg {
                    description_editor::Message::Cancel => {
                        state.description_editor.cancel();
                    },
                    description_editor::Message::Save => {},
                    other => {
                        state.description_editor.update(other);
                    },
                }
            },
        },
    }
}

/// Expands the section of every file in `files`.
pub fn expand_all(state: &mut State, files: &Vec<FileChange>)
    ensures
        final(state).active_tab == old(state).active_tab,
        final(state).description_editor == old(state).description_editor,
        final(state).expanded_files@ == old(state).expanded_files@.union(change_paths(files@)),
{
    expand_paths(&mut state.expanded_files, files);
}

/// Back to the summary tab, every section collapsed, editing cancelled.
pub fn clear(state: &mut State)
    ensures
        final(state).active_tab@ == TabView::Summary,
        final(state).expanded_files@ == Set::<Seq<char>>::empty(),
        !final(state).description_editor.is_editing(),
        final(state).description_editor.spec_text() == Seq::<char>::empty(),
        final(state).description_editor.wf(),
{
    state.active_tab = Tab::Summary;
    state.expanded_files.clear();
    state.description_editor.cancel();
}

/// After a description was saved: editing ends.
pub fn description_saved(state: &mut State)
    ensures
        final(state).active_tab == old(state).active_tab,
        final(state).expanded_files@ == old(state).expanded_files@,
        !final(state).description_editor.is_editing(),
        final(state).description_editor.spec_text() == Seq::<char>::empty(),
        final(state).description_editor.wf(),
{
    state.description_editor.cancel();
}

} // verus!
