use dojo::components::description_editor;
use dojo::components::right_panel::{self, description_saved, expand_all};
use dojo::components::summary::{
    self, description_text, diff_line_counts, expand_toggle, file_change_counts, files_header,
    short_id,
};
use dojo::path_set::PathSet;
use dojo::repo::{ChangeKind, CommitInfo, DiffLine, FileChange, FileDiff};
use dojo::screens::details::{description_summary, DetailsPane};
use dojo::timestamp::Timestamp;
use dojo::widgets::right_panel::{Message, RightPanel, SummaryMessage, Tab};

fn change(path: &str, kind: ChangeKind) -> FileChange {
    FileChange { path: path.to_string(), kind, has_conflict: false }
}

fn commit_with(description: &str) -> CommitInfo {
    CommitInfo {
        commit_id: "c1".to_string(),
        change_id: "k1".to_string(),
        description: description.to_string(),
        author: "Ada".to_string(),
        timestamp: Timestamp { millis: 0, offset_seconds: 0 },
        parent_ids: Vec::new(),
        parent_edges: Vec::new(),
        is_working_copy: false,
        is_immutable: false,
        bookmarks: Vec::new(),
        file_stats: None,
    }
}

#[test]
fn path_set_holds_each_path_once() {
    let mut s = PathSet::new();
    assert!(s.is_empty());
    s.insert("a".to_string());
    s.insert("b".to_string());
    s.insert("a".to_string());
    assert_eq!(s.len(), 2);
    assert!(s.contains(&"a".to_string()));
    s.remove(&"a".to_string());
    assert!(!s.contains(&"a".to_string()));
    assert_eq!(s.len(), 1);
    s.remove(&"zzz".to_string());
    assert_eq!(s.len(), 1);
    s.clear();
    assert!(s.is_empty());
}

#[test]
fn widget_panel_toggles_and_expands() {
    let mut p = RightPanel::new();
    assert_eq!(p.active_tab, Tab::Summary);
    p.update(Message::Summary(SummaryMessage::ToggleFile("x.rs".to_string())));
    assert!(p.expanded_files.contains(&"x.rs".to_string()));
    p.update(Message::Summary(SummaryMessage::ToggleFile("x.rs".to_string())));
    assert!(p.expanded_files.is_empty());
    let files = vec![change("a", ChangeKind::Added), change("b", ChangeKind::Deleted), change("a", ChangeKind::Modified)];
    p.expand_all(&files);
    assert_eq!(p.expanded_files.len(), 2);
    p.update(Message::Summary(SummaryMessage::ExpandAll));
    assert_eq!(p.expanded_files.len(), 2);
    p.update(Message::SwitchTab(Tab::File("a".to_string())));
    assert_eq!(p.active_tab, Tab::File("a".to_string()));
    assert_eq!(p.expanded_files.len(), 2);
    p.update(Message::Summary(SummaryMessage::CollapseAll));
    assert!(p.expanded_files.is_empty());
    assert_eq!(p.active_tab, Tab::File("a".to_string()));
    p.expand_all(&files);
    p.clear();
    assert_eq!(p.active_tab, Tab::Summary);
    assert!(p.expanded_files.is_empty());
}

#[test]
fn component_panel_edits_description() {
    let mut st = right_panel::State::new();
    let commit = commit_with("Old text");
    right_panel::update(&mut st, right_panel::Message::Summary(summary::Message::StartEditDescription), None);
    assert!(!st.description_editor.editing);
    right_panel::update(
        &mut st,
        right_panel::Message::Summary(summary::Message::StartEditDescription),
        Some(&commit),
    );
    assert!(st.description_editor.editing);
    assert_eq!(st.get_description_draft(), "Old text");
    right_panel::update(
        &mut st,
        right_panel::Message::Summary(summary::Message::DescriptionEditor(
            description_editor::Message::Edited("New text".to_string()),
        )),
        Some(&commit),
    );
    assert_eq!(st.get_description_draft(), "New text");
    right_panel::update(
        &mut st,
        right_panel::Message::Summary(summary::Message::DescriptionEditor(description_editor::Message::Save)),
        Some(&commit),
    );
    assert!(st.description_editor.editing);
    description_saved(&mut st);
    assert!(!st.description_editor.editing);
    assert_eq!(st.get_description_draft(), "");

    right_panel::update(
        &mut st,
        right_panel::Message::Summary(summary::Message::StartEditDescription),
        Some(&commit),
    );
    right_panel::update(
        &mut st,
        right_panel::Message::Summary(summary::Message::DescriptionEditor(description_editor::Message::Cancel)),
        Some(&commit),
    );
    assert!(!st.description_editor.editing);
}

#[test]
fn component_panel_sections() {
    let mut st = right_panel::State::default();
    right_panel::update(
        &mut st,
        right_panel::Message::Summary(summary::Message::ToggleFile("f".to_string())),
        None,
    );
    assert!(st.expanded_files.contains(&"f".to_string()));
    expand_all(&mut st, &vec![change("g", ChangeKind::Added)]);
    assert_eq!(st.expanded_files.len(), 2);
    right_panel::update(&mut st, right_panel::Message::SwitchTab(Tab::File("g".to_string())), None);
    assert_eq!(st.active_tab, Tab::File("g".to_string()));
    right_panel::update(&mut st, right_panel::Message::Summary(summary::Message::CollapseAll), None);
    assert!(st.expanded_files.is_empty());
    right_panel::clear(&mut st);
    assert_eq!(st.active_tab, Tab::Summary);
}

#[test]
fn summary_counts_files_and_lines() {
    let files = vec![
        change("a", ChangeKind::Added),
        change("b", ChangeKind::Modified),
        change("c", ChangeKind::Modified),
        change("d", ChangeKind::Deleted),
    ];
    let counts = file_change_counts(&files);
    assert_eq!((counts.added, counts.modified, counts.deleted), (1, 2, 1));
    let diff = FileDiff {
        path: "a".to_string(),
        kind: ChangeKind::Modified,
        lines: vec![
            DiffLine::Hunk { old_start: 1, old_count: 2, new_start: 1, new_count: 3 },
            DiffLine::Context("x".to_string()),
            DiffLine::Added("y".to_string()),
            DiffLine::Added("z".to_string()),
            DiffLine::Removed("w".to_string()),
        ],
    };
    assert_eq!(diff_line_counts(&diff), (2, 1));
}

#[test]
fn summary_texts() {
    assert_eq!(description_text("  \n"), "(no description)");
    assert_eq!(description_text("Fix it"), "Fix it");
    assert_eq!(short_id("abcdef123456", 8), "abcdef12");
    assert_eq!(short_id("abc", 8), "abc");
    let mut set = PathSet::new();
    assert!(matches!(expand_toggle(&set), summary::Message::ExpandAll));
    set.insert("a".to_string());
    assert!(matches!(expand_toggle(&set), summary::Message::CollapseAll));
}

#[test]
fn details_description_summary() {
    assert_eq!(description_summary("   "), "(no description)");
    assert_eq!(description_summary("  Title  \nbody"), "Title");
    let long = "x".repeat(90);
    let expected = format!("{}...", "x".repeat(77));
    assert_eq!(description_summary(&long), expected);
    assert_eq!(description_summary(&"y".repeat(80)), "y".repeat(80));
    let mut pane = DetailsPane::new();
    assert!(pane.diffs().is_empty());
    pane.set_diffs(vec![FileDiff { path: "p".to_string(), kind: ChangeKind::Added, lines: Vec::new() }]);
    assert_eq!(pane.diffs().len(), 1);
    pane.clear_diffs();
    assert!(pane.diffs().is_empty());
}

#[test]
fn files_heading_text() {
    let files = vec![change("a", ChangeKind::Added), change("b", ChangeKind::Modified), change("c", ChangeKind::Modified)];
    assert_eq!(files_header(files.len(), file_change_counts(&files)), "3 files: 1 added, 2 modified, 0 deleted");
    let one = vec![change("d", ChangeKind::Deleted)];
    assert_eq!(files_header(1, file_change_counts(&one)), "1 file: 0 added, 0 modified, 1 deleted");
}
