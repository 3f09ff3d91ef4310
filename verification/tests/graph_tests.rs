use dojo::components::graph::{
    bookmark_list, file_count_label, row_description, GraphColumn, GraphLine, GraphState,
};
use dojo::text::decimal_string;
use dojo::repo::{CommitInfo, FileStats, ParentEdge};
use dojo::screens::log::{commit_row_title, shows_parent_count, LogScreen};
use dojo::timestamp::Timestamp;

fn commit(id: &str, parents: &[&str]) -> CommitInfo {
    CommitInfo {
        commit_id: id.to_string(),
        change_id: format!("{}-change-id", id),
        description: format!("Commit {}\n\nbody", id),
        author: "Ada".to_string(),
        timestamp: Timestamp { millis: 0, offset_seconds: 0 },
        parent_ids: parents.iter().map(|p| p.to_string()).collect(),
        parent_edges: parents
            .iter()
            .map(|p| ParentEdge { commit_id: p.to_string(), is_indirect: false })
            .collect(),
        is_working_copy: false,
        is_immutable: false,
        bookmarks: Vec::new(),
        file_stats: None,
    }
}

fn line(sc: usize, sr: usize, tc: usize, tr: usize) -> GraphLine {
    GraphLine { source_col: sc, source_row: sr, target_col: tc, target_row: tr, indirect: false }
}

fn columns(g: &GraphColumn) -> Vec<usize> {
    g.rows().iter().map(|r| r.column).collect()
}

#[test]
fn graph_of_no_commits_is_empty() {
    let mut g = GraphColumn::new();
    g.compute(&[]);
    assert!(g.rows().is_empty());
    assert!(g.lines().is_empty());
    assert_eq!(g.max_column(), 0);
}

#[test]
fn graph_of_linear_history_stays_in_one_lane() {
    let commits = vec![commit("a", &["b"]), commit("b", &["c"]), commit("c", &[])];
    let mut g = GraphColumn::new();
    g.compute(&commits);
    assert_eq!(columns(&g), vec![0, 0, 0]);
    assert_eq!(g.lines().to_vec(), vec![line(0, 0, 0, 1), line(0, 1, 0, 2)]);
    assert_eq!(g.max_column(), 0);
}

#[test]
fn graph_of_merge_opens_a_second_lane() {
    let commits = vec![
        commit("m", &["a", "b"]),
        commit("a", &["base"]),
        commit("b", &["base"]),
        commit("base", &[]),
    ];
    let mut g = GraphColumn::new();
    g.compute(&commits);
    assert_eq!(columns(&g), vec![0, 0, 1, 0]);
    assert_eq!(
        g.lines().to_vec(),
        vec![line(0, 0, 0, 1), line(0, 0, 1, 2), line(1, 2, 0, 3), line(0, 1, 0, 3)]
    );
    assert_eq!(g.max_column(), 1);
}

#[test]
fn graph_stem_to_hidden_parent_runs_past_last_row() {
    let mut c = commit("x", &[]);
    c.parent_edges.push(ParentEdge { commit_id: "gone".to_string(), is_indirect: true });
    let mut g = GraphColumn::new();
    g.compute(&[c]);
    assert_eq!(columns(&g), vec![0]);
    assert_eq!(
        g.lines().to_vec(),
        vec![GraphLine { source_col: 0, source_row: 0, target_col: 0, target_row: 1, indirect: true }]
    );
}

#[test]
fn graph_row_shows_commit_fields() {
    let mut c = commit("a", &[]);
    c.change_id = "abcdefghijkl".to_string();
    c.description = "Title\nmore".to_string();
    c.bookmarks = vec!["main".to_string()];
    c.is_working_copy = true;
    c.file_stats = Some(FileStats { file_count: 2, lines_added: 5, lines_removed: 1 });
    c.timestamp = Timestamp { millis: 86_400_000 + 3_600_000, offset_seconds: 3600 };
    let mut g = GraphColumn::new();
    g.compute(&[c]);
    let row = &g.rows()[0];
    assert_eq!(row.change_id, "abcdefgh");
    assert_eq!(row.description, "Title");
    assert_eq!(row.author, "Ada");
    assert_eq!(row.timestamp, "1970-01-02 02:00");
    assert_eq!(row.bookmarks, vec!["main".to_string()]);
    assert!(row.is_working_copy);
    assert!(!row.is_immutable);
    assert_eq!(row.file_count, Some(2));
    assert_eq!(row.lines_added, Some(5));
    assert_eq!(row.lines_removed, Some(1));
}

#[test]
fn graph_selection_is_kept_across_layout() {
    let mut g = GraphColumn::new();
    g.set_selected(Some(1));
    g.compute(&[commit("a", &[]), commit("b", &[])]);
    assert_eq!(g.selected_index(), Some(1));
    assert_eq!(columns(&g), vec![0, 0]);
    assert_eq!(g.max_column(), 0);
}

#[test]
fn graph_lanes_are_reused_once_free() {
    // "b" has no parent shown, so its lane is free again for "d", while the
    // stem from "a" to "c" keeps lane 0.
    let commits = vec![commit("a", &["c"]), commit("b", &[]), commit("d", &[]), commit("c", &[])];
    let mut g = GraphColumn::new();
    g.compute(&commits);
    assert_eq!(columns(&g), vec![0, 1, 1, 0]);
    assert_eq!(g.lines().to_vec(), vec![line(0, 0, 0, 3)]);
    assert_eq!(g.max_column(), 1);
}

#[test]
fn hover_redraws_only_on_change() {
    let mut s = GraphState::new();
    assert!(s.cursor_moved(Some(2)));
    assert!(!s.cursor_moved(Some(2)));
    assert!(s.cursor_moved(Some(3)));
    assert!(s.cursor_moved(None));
    assert!(!s.cursor_moved(None));
    assert!(s.cursor_left());
    assert_eq!(s.hovered_row, None);
}

#[test]
fn row_description_truncates_long_text() {
    assert_eq!(row_description("", 10), ("(no description)".to_string(), true));
    assert_eq!(row_description("short", 10), ("short".to_string(), false));
    assert_eq!(row_description("abcdefghijkl", 10), ("abcdefg...".to_string(), false));
    assert_eq!(row_description("abcdef", 3), ("abcdef".to_string(), false));
    assert_eq!(row_description("éééééé", 5), ("éé...".to_string(), false));
}

#[test]
fn log_screen_selects_and_updates_stats() {
    let mut screen = LogScreen::new();
    assert!(screen.selected_commit().is_none());
    screen.set_commits(vec![commit("a", &["b"]), commit("b", &[])]);
    assert_eq!(screen.commits().len(), 2);
    assert_eq!(screen.selected_index(), Some(0));
    assert_eq!(screen.selected_commit().unwrap().commit_id, "a");
    screen.select(1);
    assert_eq!(screen.selected_index(), Some(1));
    assert_eq!(screen.selected_commit().unwrap().commit_id, "b");
    screen.select(5);
    assert_eq!(screen.selected_index(), Some(1));
    screen.set_commits(vec![commit("only", &[])]);
    assert_eq!(screen.selected_index(), Some(1));
    assert!(screen.selected_commit().is_none());
    screen.set_commits(vec![commit("a", &["b"]), commit("b", &[])]);

    let s1 = FileStats { file_count: 1, lines_added: 2, lines_removed: 3 };
    let s2 = FileStats { file_count: 4, lines_added: 5, lines_removed: 6 };
    screen.update_stats(vec![("b".to_string(), s1), ("zzz".to_string(), s2), ("b".to_string(), s2)]);
    assert_eq!(screen.commits()[0].file_stats, None);
    assert_eq!(screen.commits()[1].file_stats, Some(s2));
    assert_eq!(screen.graph().rows()[1].file_count, Some(4));
    assert_eq!(screen.graph().rows()[0].file_count, None);
}

#[test]
fn log_row_titles() {
    assert_eq!(commit_row_title("Fix\nmore"), "Fix");
    assert_eq!(commit_row_title(""), "(no description)");
    assert_eq!(commit_row_title("\nsecond"), "");
    assert!(shows_parent_count(&commit("m", &["a", "b"])));
    assert!(!shows_parent_count(&commit("a", &["b"])));
}

#[test]
fn graph_lines_leave_and_reach_row_lanes() {
    let commits = vec![
        commit("m", &["a", "b"]),
        commit("a", &["base"]),
        commit("b", &["base", "gone"]),
        commit("base", &[]),
    ];
    let mut g = GraphColumn::new();
    g.compute(&commits);
    let cols = columns(&g);
    for l in g.lines() {
        assert!(l.source_row < l.target_row && l.target_row <= commits.len());
        assert_eq!(l.source_col, cols[l.source_row]);
        if l.target_row < commits.len() {
            assert_eq!(l.target_col, cols[l.target_row]);
        }
    }
}

#[test]
fn row_labels() {
    assert_eq!(bookmark_list(&vec![]), "");
    assert_eq!(bookmark_list(&vec!["main".to_string()]), "main");
    assert_eq!(bookmark_list(&vec!["main".to_string(), "dev".to_string(), "x".to_string()]), "main, dev, x");
    assert_eq!(file_count_label(0), "0 files");
    assert_eq!(file_count_label(1), "1 file");
    assert_eq!(file_count_label(12), "12 files");
    for n in [0usize, 7, 10, 99, 100, 12345, usize::MAX] {
        assert_eq!(decimal_string(n), n.to_string());
    }
}
