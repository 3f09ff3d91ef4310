use dojo::app_state::{tab_bar_visible, LoadStatus, RepoTabs};
use dojo::components::{description_editor, right_panel, summary};
use dojo::error::DojoError;
use dojo::repo::{ChangeKind, CommitInfo, FileChange, FileDiff, FileStats};
use dojo::repo_state::{ids_of, update, Action, Message, RepoState};
use dojo::settings::Settings;
use dojo::state_wrapper::StateRef;
use dojo::timestamp::Timestamp;
use dojo::worker_error::{
    diffs_failure, files_failure, refresh_failure, save_failure, stats_failure, DiffsError, FilesError,
    RefreshError, StatsError, UpdateDescriptionError,
};

fn commit(id: &str, description: &str) -> CommitInfo {
    CommitInfo {
        commit_id: id.to_string(),
        change_id: format!("{}k", id),
        description: description.to_string(),
        author: "Ada".to_string(),
        timestamp: Timestamp { millis: 0, offset_seconds: 0 },
        parent_ids: Vec::new(),
        parent_edges: Vec::new(),
        is_working_copy: false,
        is_immutable: false,
        bookmarks: Vec::new(),
        file_stats: None,
    }
}

fn loaded_state() -> RepoState {
    let mut st = RepoState::new("repo".to_string());
    let action = update(&mut st, Message::Loaded(Ok(vec![commit("c1", "one"), commit("c2", "two")])));
    match action {
        Action::LoadStatsAndCommit { commit_ids, selected } => {
            assert_eq!(commit_ids, vec!["c1".to_string(), "c2".to_string()]);
            assert_eq!(selected, Some("c1".to_string()));
        }
        other => panic!("unexpected action {:?}", other),
    }
    st
}

#[test]
fn repo_load_selects_first_commit() {
    let st = loaded_state();
    assert!(!st.loading);
    assert!(st.error.is_none());
    assert_eq!(st.log_screen.commits().len(), 2);
    assert_eq!(st.log_screen.selected_index(), Some(0));
    assert_eq!(st.name, "repo");
}

#[test]
fn repo_load_failure_is_recorded() {
    let mut st = RepoState::new("r".to_string());
    let action = update(&mut st, Message::Loaded(Err(DojoError::RepoOpen("boom".to_string()))));
    assert!(matches!(action, Action::Nothing));
    assert!(!st.loading);
    assert_eq!(st.error.as_ref().unwrap().message(), "Failed to open repository: boom");
}

#[test]
fn repo_load_of_empty_log_selects_nothing() {
    let mut st = RepoState::new("r".to_string());
    let action = update(&mut st, Message::Loaded(Ok(Vec::new())));
    match action {
        Action::LoadStatsAndCommit { commit_ids, selected } => {
            assert!(commit_ids.is_empty());
            assert!(selected.is_none());
        }
        other => panic!("unexpected action {:?}", other),
    }
}

#[test]
fn repo_select_commit_resets_panel() {
    let mut st = loaded_state();
    update(&mut st, Message::FilesLoaded(Ok(vec![FileChange { path: "a".to_string(), kind: ChangeKind::Added, has_conflict: false }])));
    update(&mut st, Message::RightPanel(right_panel::Message::Summary(summary::Message::ExpandAll)));
    assert!(st.right_panel.expanded_files.contains(&"a".to_string()));
    let action = update(&mut st, Message::SelectCommit(1));
    match action {
        Action::LoadCommitData(id) => assert_eq!(id, "c2"),
        other => panic!("unexpected action {:?}", other),
    }
    assert!(st.files.is_empty());
    assert!(st.diffs.is_empty());
    assert!(st.right_panel.expanded_files.is_empty());
    let action = update(&mut st, Message::SelectCommit(9));
    match action {
        Action::LoadCommitData(id) => assert_eq!(id, "c2"),
        other => panic!("unexpected action {:?}", other),
    }
}

#[test]
fn repo_select_without_commits_does_nothing() {
    let mut st = RepoState::new("r".to_string());
    assert!(matches!(update(&mut st, Message::SelectCommit(0)), Action::Nothing));
}

#[test]
fn repo_loads_files_diffs_and_stats() {
    let mut st = loaded_state();
    update(&mut st, Message::DiffsLoaded(Ok(vec![FileDiff { path: "p".to_string(), kind: ChangeKind::Added, lines: Vec::new() }])));
    assert_eq!(st.diffs.len(), 1);
    let s = FileStats { file_count: 3, lines_added: 10, lines_removed: 2 };
    update(&mut st, Message::StatsLoaded(Ok(vec![("c2".to_string(), s)])));
    assert_eq!(st.log_screen.commits()[1].file_stats, Some(s));
    assert_eq!(st.log_screen.commits()[0].file_stats, None);
    update(&mut st, Message::FilesLoaded(Err(DojoError::FileLoad("gone".to_string()))));
    assert_eq!(st.error.as_ref().unwrap().message(), "Failed to load files: gone");
    update(&mut st, Message::DiffsLoaded(Err(DojoError::DiffLoad("bad".to_string()))));
    assert_eq!(st.error.as_ref().unwrap().message(), "Failed to load diff: bad");
    assert_eq!(st.diffs.len(), 1);
}

#[test]
fn repo_saves_description_and_reloads() {
    let mut st = loaded_state();
    update(&mut st, Message::RightPanel(right_panel::Message::Summary(summary::Message::StartEditDescription)));
    assert!(st.right_panel.description_editor.editing);
    update(
        &mut st,
        Message::RightPanel(right_panel::Message::Summary(summary::Message::DescriptionEditor(
            description_editor::Message::Edited("better".to_string()),
        ))),
    );
    let action = update(
        &mut st,
        Message::RightPanel(right_panel::Message::Summary(summary::Message::DescriptionEditor(
            description_editor::Message::Save,
        ))),
    );
    match action {
        Action::SaveDescription { commit_id, description } => {
            assert_eq!(commit_id, "c1");
            assert_eq!(description, "better");
        }
        other => panic!("unexpected action {:?}", other),
    }
    assert!(matches!(update(&mut st, Message::DescriptionSaved(Ok(()))), Action::Reload));
    assert!(!st.right_panel.description_editor.editing);
    let action = update(&mut st, Message::DescriptionSaved(Err(DojoError::DescriptionUpdate("locked".to_string()))));
    assert!(matches!(action, Action::Nothing));
    assert_eq!(st.error.as_ref().unwrap().message(), "Failed to update description: locked");
}

#[test]
fn repo_save_without_selection_does_nothing() {
    let mut st = RepoState::new("r".to_string());
    let action = update(
        &mut st,
        Message::RightPanel(right_panel::Message::Summary(summary::Message::DescriptionEditor(
            description_editor::Message::Save,
        ))),
    );
    assert!(matches!(action, Action::Nothing));
}

#[test]
fn ids_in_order() {
    assert_eq!(ids_of(&vec![commit("x", ""), commit("y", "")]), vec!["x".to_string(), "y".to_string()]);
}

#[test]
fn tabs_open_select_close() {
    let mut tabs = RepoTabs::new("a");
    assert_eq!(tabs.active(), 0);
    assert!(!tab_bar_visible(tabs.items().len()));
    tabs.open("b");
    tabs.open("c");
    assert!(tab_bar_visible(tabs.items().len()));
    assert_eq!(tabs.active(), 2);
    assert_eq!(tabs.active_item(), Some(&"c"));
    tabs.select(7);
    assert_eq!(tabs.active(), 2);
    tabs.select(0);
    assert_eq!(tabs.active_item(), Some(&"a"));
    tabs.close(2);
    assert_eq!(tabs.items(), &vec!["a", "b"]);
    assert_eq!(tabs.active(), 0);
    tabs.select(1);
    tabs.close(0);
    assert_eq!(tabs.items(), &vec!["b"]);
    assert_eq!(tabs.active(), 0);
    tabs.close(0);
    assert_eq!(tabs.items(), &vec!["b"]);
    if let Some(t) = tabs.get_mut(0) {
        *t = "z";
    }
    assert_eq!(tabs.items(), &vec!["z"]);
    assert!(tabs.get_mut(3).is_none());
}

#[test]
fn load_status_reports_errors() {
    let mut s = LoadStatus::new();
    assert!(s.loading);
    s.record_load(Some(&RefreshError::ChannelClosed));
    assert!(!s.loading);
    assert_eq!(s.error.as_deref(), Some("Worker channel closed"));
    s.record_load(Some(&RefreshError::Jj("no repo".to_string())));
    assert_eq!(s.error.as_deref(), Some("no repo"));
    s.record_load(None);
    assert!(s.error.is_none());
}

#[test]
fn error_messages() {
    assert_eq!(DojoError::RepoNotLoaded.message(), "Repository not loaded");
    assert_eq!(DojoError::CommitLoad("x".to_string()).message(), "Failed to load commits: x");
    assert_eq!(DojoError::InvalidCommitId("zz".to_string()).message(), "Invalid commit ID: zz");
    assert_eq!(DojoError::InvalidPath("p".to_string()).message(), "Invalid file path: p");
    assert_eq!(DojoError::Config("c".to_string()).message(), "Config error: c");
    assert_eq!(FilesError::RepoNotLoaded.message(), "Repository not loaded");
    assert_eq!(FilesError::ChannelClosed.message(), "Worker channel closed");
    assert_eq!(DiffsError::Jj("d".to_string()).message(), "d");
    assert_eq!(StatsError::RepoNotLoaded.message(), "Repository not loaded");
    assert_eq!(StatsError::ChannelClosed.message(), "Worker channel closed");
    assert_eq!(UpdateDescriptionError::Jj("u".to_string()).message(), "u");
    assert_eq!(UpdateDescriptionError::ChannelClosed.message(), "Worker channel closed");
}

#[test]
fn settings_defaults() {
    let s = Settings::default();
    assert_eq!(s.diff.side_by_side_threshold, 800);
    assert_eq!((s.commit_list.min_width, s.commit_list.max_width), (400, 800));
    assert_eq!((s.sidebar.min_width, s.sidebar.max_width), (100, 180));
}

#[test]
fn state_ref_maps_to_fields() {
    let settings = Settings::default();
    let pair = (1u32, "x".to_string());
    let r = StateRef::new(&pair, &settings);
    assert_eq!(r.state().0, 1);
    let m = r.map(|p| &p.1);
    assert_eq!(m.state(), "x");
    assert_eq!(m.settings().diff.side_by_side_threshold, 800);
    let n = r.map_ref(|p| &p.0);
    assert_eq!(*n.state(), 1);
    // Dereferencing gives the wrapped state.
    assert_eq!(r.0, 1);
    assert!(std::ptr::eq(&*r, &pair));
}

#[test]
fn worker_errors_become_repository_errors() {
    assert_eq!(refresh_failure(&RefreshError::Jj("no repo".to_string())).message(), "Failed to load commits: no repo");
    assert_eq!(
        refresh_failure(&RefreshError::ChannelClosed).message(),
        "Failed to load commits: Worker channel closed"
    );
    assert!(matches!(files_failure(&FilesError::RepoNotLoaded), DojoError::RepoNotLoaded));
    assert_eq!(files_failure(&FilesError::Jj("bad".to_string())).message(), "Failed to load files: bad");
    assert!(matches!(diffs_failure(&DiffsError::RepoNotLoaded), DojoError::RepoNotLoaded));
    assert_eq!(
        diffs_failure(&DiffsError::ChannelClosed).message(),
        "Failed to load diff: Worker channel closed"
    );
    assert!(matches!(stats_failure(&StatsError::RepoNotLoaded), DojoError::RepoNotLoaded));
    assert_eq!(
        stats_failure(&StatsError::ChannelClosed).message(),
        "Failed to load commits: Worker channel closed"
    );
    assert_eq!(
        save_failure(&UpdateDescriptionError::Jj("locked".to_string())).message(),
        "Failed to update description: locked"
    );
}
