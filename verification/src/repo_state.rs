//! The state of one open repository and the decisions taken on its messages.
//! Loading and saving happen outside: an update names them as an `Action`,
//! and their results come back as messages.

use vstd::prelude::*;

use crate::components::{description_editor, right_panel, sidebar, summary};
use crate::error::DojoError;
use crate::repo::{commit_views, CommitInfo, CommitView, FileChange, FileDiff, FileStats};
use crate::screens::log::{graph_shows, selected_of, stats_for, LogScreen};

verus! {

/// State for a single repository.
#[derive(Debug)]
pub struct RepoState {
    pub name: String,
    pub log_screen: LogScreen,
    pub sidebar: sidebar::State,
    pub right_panel: right_panel::State,
    pub files: Vec<FileChange>,
    pub diffs: Vec<FileDiff>,
    pub loading: bool,
    pub error: Option<DojoError>,
}

/// Messages for a single repository.
#[derive(Debug)]
pub enum Message {
    Loaded(Result<Vec<CommitInfo>, DojoError>),
    FilesLoaded(Result<Vec<FileChange>, DojoError>),
    DiffsLoaded(Result<Vec<FileDiff>, DojoError>),
    StatsLoaded(Result<Vec<(String, FileStats)>, DojoError>),
    SelectCommit(usize),
    DescriptionSaved(Result<(), DojoError>),
    Sidebar(sidebar::Message),
    RightPanel(right_panel::Message),
}

/// Work that an update asks for.
#[derive(Debug)]
pub enum Action {
    /// Nothing to do.
    Nothing,
    /// Load the line statistics of these commits, and the files and diffs of
    /// the selected commit when there is one.
    LoadStatsAndCommit { commit_ids: Vec<String>, selected: Option<String> },
    /// Load the files and diffs of this commit.
    LoadCommitData(String),
    /// Write this description to this commit.
    SaveDescription { commit_id: String, description: String },
    /// Load the repository again.
    Reload,
}

/// The ids of a list of commits.
pub open spec fn commit_ids(commits: Seq<CommitView>) -> Seq<Seq<char>> {
    commits.map_values(|c: CommitView| c.commit_id)
}

impl RepoState {
    /// The state keeps its editor text and undo stack in step.
    pub open spec fn wf(&self) -> bool {
        self.right_panel.description_editor.wf()
    }

    /// The selected commit.
    pub open spec fn selected(&self) -> Option<CommitView> {
        selected_of(commit_views(self.log_screen.spec_commits()), self.log_screen.spec_selected())
    }

    /// A repository that is being loaded, with nothing shown yet.
    pub fn new(name: String) -> (res: RepoState)
        ensures
            res.name@ == name@,
            res.loading,
            res.error is None,
            res.files@.len() == 0,
            res.diffs@.len() == 0,
            res.log_screen.spec_commits().len() == 0,
            res.log_screen.spec_selected() is None,
            res.wf(),
    {
        RepoState {
            name,
            log_screen: LogScreen::new(),
            sidebar: sidebar::State {  },
            right_panel: right_panel::State::new(),
            files: Vec::new(),
            diffs: Vec::new(),
            loading: true,
            error: None,
        }
    }
}

/// The id of the selected commit, if any.
fn selected_id(log: &LogScreen) -> (res: Option<String>)
    ensures
        match res {
            Some(id) => selected_of(commit_views(log.spec_commits()), log.spec_selected()) matches Some(
                c,
            ) && c.commit_id == id@,
            None => selected_of(commit_views(log.spec_commits()), log.spec_selected()) is None,
        },
{
    match log.selected_commit() {
        Some(c) => Some(c.commit_id.clone()),
        None => None,
    }
}

/// `new` is `old` but for the parts flagged: the log screen, the right
/// panel, the files, the diffs, the loading flag and the error.
pub open spec fn unchanged_but(
    old: RepoState,
    new: RepoState,
    log: bool,
    panel: bool,
    files: bool,
    diffs: bool,
    loading: bool,
    error: bool,
) -> bool {
    &&& new.name == old.name
    &&& new.sidebar == old.sidebar
    &&& (!log ==> new.log_screen == old.log_screen)
    &&& (!panel ==> new.right_panel == old.right_panel)
    &&& (!files ==> new.files == old.files)
    &&& (!diffs ==> new.diffs == old.diffs)
    &&& (!loading ==> new.loading == old.loading)
    &&& (!error ==> new.error == old.error)
}

/// Updates the repository state on a message and returns the work to do.
pub fn update(state: &mut RepoState, message: Message) -> (action: Action)
    requires
        old(state).wf(),
    ensures
        final(state).wf(),
        match message {
            Message::Loaded(Ok(commits)) => {
                &&& unchanged_but(*old(state), *final(state), true, false, false, false, true, true)
                &&& !final(state).loading
                &&& final(state).error is None
                &&& final(state).log_screen.spec_commits() == commits@
                &&& graph_shows(final(state).log_screen.spec_graph(), commits@)
                &&& final(state).log_screen.spec_selected() == (if commits@.len() > 0 && old(state).log_screen.spec_selected() is None {
                    Some(0usize)
                } else {
                    old(state).log_screen.spec_selected()
                })
                &&& action matches Action::LoadStatsAndCommit { commit_ids: ids, selected } && texts_of(
                    ids@,
                ) == commit_ids(commit_views(commits@)) && match final(state).selected() {
                    Some(c) => selected matches Some(id) && id@ == c.commit_id,
                    None => selected is None,
                }
            },
            Message::Loaded(Err(e)) => {
                &&& unchanged_but(*old(state), *final(state), false, false, false, false, true, true)
                &&& !final(state).loading
                &&& final(state).error == Some(e)
                &&& action is Nothing
            },
            Message::SelectCommit(index) => {
                &&& unchanged_but(*old(state), *final(state), true, true, true, true, false, false)
                &&& final(state).log_screen.spec_commits() == old(state).log_screen.spec_commits()
                &&& final(state).log_screen.spec_graph() == old(state).log_screen.spec_graph()
                &&& final(state).log_screen.spec_selected() == (if index < old(state).log_screen.spec_commits().len() {
                    Some(index)
                } else {
                    old(state).log_screen.spec_selected()
                })
                &&& final(state).files@.len() == 0
                &&& final(state).diffs@.len() == 0
                &&& final(state).right_panel.active_tab@ == right_panel::TabView::Summary
                &&& final(state).right_panel.expanded_files@ == Set::<Seq<char>>::empty()
                &&& !final(state).right_panel.description_editor.is_editing()
                &&& final(state).right_panel.description_editor.spec_text() == Seq::<char>::empty()
                &&& match final(state).selected() {
                    Some(c) => action matches Action::LoadCommitData(id) && id@ == c.commit_id,
                    None => action is Nothing,
                }
            },
            Message::FilesLoaded(Ok(files)) => {
                &&& unchanged_but(*old(state), *final(state), false, false, true, false, false, false)
                &&& final(state).files@ == files@
                &&& action is Nothing
            },
            Message::FilesLoaded(Err(e)) => {
                &&& unchanged_but(*old(state), *final(state), false, false, false, false, false, true)
                &&& final(state).error == Some(e)
                &&& action is Nothing
            },
            Message::DiffsLoaded(Ok(diffs)) => {
                &&& unchanged_but(*old(state), *final(state), false, false, false, true, false, false)
                &&& final(state).diffs@ == diffs@
                &&& action is Nothing
            },
            Message::DiffsLoaded(Err(e)) => {
                &&& unchanged_but(*old(state), *final(state), false, false, false, false, false, true)
                &&& final(state).error == Some(e)
                &&& action is Nothing
            },
            Message::StatsLoaded(Ok(stats)) => {
                &&& unchanged_but(*old(state), *final(state), true, false, false, false, false, false)
                &&& final(state).log_screen.spec_selected() == old(state).log_screen.spec_selected()
                &&& final(state).log_screen.spec_commits().len() == old(state).log_screen.spec_commits().len()
                &&& forall|r: int|
                    0 <= r < old(state).log_screen.spec_commits().len() ==> (#[trigger] final(state).log_screen.spec_commits()[r])@ == (CommitView {
                        file_stats: stats_for(
                            stats@,
                            old(state).log_screen.spec_commits()[r].commit_id@,
                            old(state).log_screen.spec_commits()[r]@.file_stats,
                        ),
                        ..old(state).log_screen.spec_commits()[r]@
                    })
                &&& graph_shows(final(state).log_screen.spec_graph(), final(state).log_screen.spec_commits())
                &&& action is Nothing
            },
            Message::StatsLoaded(Err(e)) => {
                &&& unchanged_but(*old(state), *final(state), false, false, false, false, false, true)
                &&& final(state).error == Some(e)
                &&& action is Nothing
            },
            Message::DescriptionSaved(Ok(())) => {
                &&& unchanged_but(*old(state), *final(state), false, true, false, false, false, false)
                &&& final(state).right_panel.active_tab == old(state).right_panel.active_tab
                &&& final(state).right_panel.expanded_files@ == old(state).right_panel.expanded_files@
                &&& !final(state).right_panel.description_editor.is_editing()
                &&& final(state).right_panel.description_editor.spec_text() == Seq::<char>::empty()
                &&& action is Reload
            },
            Message::DescriptionSaved(Err(e)) => {
                &&& unchanged_but(*old(state), *final(state), false, false, false, false, false, true)
                &&& final(state).error == Some(e)
                &&& action is Nothing
            },
            Message::Sidebar(_) => {
                &&& unchanged_but(*old(state), *final(state), false, false, false, false, false, false)
                &&& action is Nothing
            },
            Message::RightPanel(right_panel::Message::Summary(summary::Message::ExpandAll)) => {
                &&& unchanged_but(*old(state), *final(state), false, true, false, false, false, false)
                &&& final(state).right_panel.active_tab == old(state).right_panel.active_tab
                &&& final(state).right_panel.description_editor == old(state).right_panel.description_editor
                &&& final(state).right_panel.expanded_files@ == old(state).right_panel.expanded_files@.union(right_panel::change_paths(old(state).files@))
                &&& action is Nothing
            },
            Message::RightPanel(
                right_panel::Message::Summary(
                    summary::Message::DescriptionEditor(description_editor::Message::Save),
                ),
            ) => {
                &&& unchanged_but(*old(state), *final(state), false, false, false, false, false, false)
                &&& match old(state).selected() {
                    Some(c) => action matches Action::SaveDescription { commit_id, description }
                        && commit_id@ == c.commit_id && description@ == old(state).right_panel.description_editor.spec_text(),
                    None => action is Nothing,
                }
            },
            Message::RightPanel(m) => {
                &&& unchanged_but(*old(state), *final(state), false, true, false, false, false, false)
                &&& right_panel::handled(
                    old(state).right_panel,
                    final(state).right_panel,
                    m,
                    match old(state).selected() {
                        Some(c) => Some(c.description),
                        None => None,
                    },
                )
                &&& action is Nothing
            },
        },
{
    match message {
        Message::Loaded(result) => {
            state.loading = false;
            match result {
                Ok(commits) => {
                    state.error = None;
                    let ids = ids_of(&commits);
                    state.log_screen.set_commits(commits);
                    let selected = selected_id(&state.log_screen);
                    Action::LoadStatsAndCommit { commit_ids: ids, selected }
                },
                Err(e) => {
                    state.error = Some(e);
                    Action::Nothing
                },
            }
        },
        Message::SelectCommit(index) => {
            state.log_screen.select(index);
            right_panel::clear(&mut state.right_panel);
            state.files = Vec::new();
            state.diffs = Vec::new();
            match selected_id(&state.log_screen) {
                Some(id) => Action::LoadCommitData(id),
                None => Action::Nothing,
            }
        },
        Message::FilesLoaded(result) => {
            match result {
                Ok(files) => state.files = files,
                Err(e) => state.error = Some(e),
            }
            Action::Nothing
        },
        Message::DiffsLoaded(result) => {
            match result {
                Ok(diffs) => state.diffs = diffs,
                Err(e) => state.error = Some(e),
            }
            Action::Nothing
        },
        Message::StatsLoaded(result) => {
            match result {
                Ok(stats) => state.log_screen.update_stats(stats),
                Err(e) => state.error = Some(e),
            }
            Action::Nothing
        },
        Message::Sidebar(msg) => {
            sidebar::update(&mut state.sidebar, msg);
            Action::Nothing
        },
        Message::RightPanel(msg) => {
            let selected = match state.log_screen.selected_commit() {
                Some(c) => Some(c.clone()),
                None => None,
            };
            match msg {
                right_panel::Message::Summary(summary::Message::ExpandAll) => {
                    right_panel::expand_all(&mut state.right_panel, &state.files);
                    Action::Nothing
                },
                right_panel::Message::Summary(
                    summary::Message::DescriptionEditor(description_editor::Message::Save),
                ) => {
                    match selected {
                        Some(commit) => {
                            let description = state.right_panel.get_description_draft();
                            Action::SaveDescription { commit_id: commit.commit_id, description }
                        },
                        None => Action::Nothing,
                    }
                },
                other => {
                    let commit = match &selected {
                        Some(c) => Some(c),
                        None => None,
                    };
                    right_panel::update(&mut state.right_panel, other, commit);
                    Action::Nothing
                },
            }
        },
        Message::DescriptionSaved(result) => {
            match result {
                Ok(()) => {
                    right_panel::description_saved(&mut state.right_panel);
                    Action::Reload
                },
                Err(e) => {
                    state.error = Some(e);
                    Action::Nothing
                },
            }
        },
    }
}

/// The texts of a list of strings.
pub open spec fn texts_of(v: Seq<String>) -> Seq<Seq<char>> {
    v.map_values(|s: String| s@)
}

/// The ids of `commits`, in order.
pub fn ids_of(commits: &Vec<CommitInfo>) -> (res: Vec<String>)
    ensures
        texts_of(res@) == commit_ids(commit_views(commits@)),
{
    let mut res: Vec<String> = Vec::new();
    let mut i: usize = 0;
    while i < commits.len()
        invariant
            i <= commits@.len(),
            texts_of(res@) == commit_ids(commit_views(commits@)).take(i as int),
        decreases commits@.len() - i,
    {
        let ghost before = res@;
        res.push(commits[i].commit_id.clone());
        proof {
            assert(texts_of(res@) =~= texts_of(before).push(res@[i as int]@));
            assert(commit_views(commits@)[i as int] == commits@[i as int]@);
            assert(commit_ids(commit_views(commits@))[i as int] == commits@[i as int].commit_id@);
            assert(texts_of(res@) =~= commit_ids(commit_views(commits@)).take(i + 1));
        }
        i = i + 1;
    }
    proof {
        assert(commit_ids(commit_views(commits@)).take(commits@.len() as int) =~= commit_ids(
            commit_views(commits@),
        ));
    }
    res
}

} // verus!
