use dojo::log_walk::{sort_newest_first, LogWalk};
use dojo::repo::{ChangeKind, CommitInfo, DiffLine, FileDiff};
use dojo::timestamp::Timestamp;
use dojo::widgets::diff::{gutter_fits, gutter_numbers, GutterNumbers};
use dojo::repo::FileStats;
use dojo::worker::{bookmarks_pointing_at, collect_diffs, commit_stats};

fn commit(id: &str, millis: i64, parents: &[&str]) -> CommitInfo {
    CommitInfo {
        commit_id: id.to_string(),
        change_id: id.to_string(),
        description: String::new(),
        author: String::new(),
        timestamp: Timestamp { millis, offset_seconds: 0 },
        parent_ids: parents.iter().map(|p| p.to_string()).collect(),
        parent_edges: Vec::new(),
        is_working_copy: false,
        is_immutable: false,
        bookmarks: Vec::new(),
        file_stats: None,
    }
}

fn ids(v: &[CommitInfo]) -> Vec<&str> {
    v.iter().map(|c| c.commit_id.as_str()).collect()
}

/// Runs a walk over a fixed history, reading each requested commit from it.
fn walk(history: &[CommitInfo], heads: &[&str], limit: usize) -> (Vec<String>, Vec<CommitInfo>) {
    let heads: Vec<String> = heads.iter().map(|h| h.to_string()).collect();
    let mut w = LogWalk::new(&heads, limit);
    let mut requested = Vec::new();
    while let Some(id) = w.next_request() {
        requested.push(id.clone());
        assert!(w.is_pending(&id));
        assert!(!w.is_pending(&"no such commit".to_string()));
        let c = history.iter().find(|c| c.commit_id == id).unwrap().clone();
        w.record(c);
    }
    (requested, w.finish())
}

#[test]
fn walk_visits_each_commit_once() {
    // m merges a and b, which both descend from base.
    let history = vec![
        commit("m", 40, &["a", "b"]),
        commit("a", 30, &["base"]),
        commit("b", 20, &["base"]),
        commit("base", 10, &[]),
    ];
    let (requested, log) = walk(&history, &["m"], 100);
    assert_eq!(requested, vec!["m", "a", "base", "b"]);
    assert_eq!(ids(&log), vec!["m", "a", "b", "base"]);
}

#[test]
fn walk_stops_at_limit() {
    let history = vec![commit("c", 3, &["b"]), commit("b", 2, &["a"]), commit("a", 1, &[])];
    let (requested, log) = walk(&history, &["c"], 2);
    assert_eq!(requested, vec!["c", "b"]);
    assert_eq!(ids(&log), vec!["c", "b"]);
    let (_, none) = walk(&history, &["c"], 0);
    assert!(none.is_empty());
}

#[test]
fn walk_from_several_heads() {
    let history = vec![commit("x", 5, &["r"]), commit("y", 7, &["r"]), commit("r", 1, &[])];
    let (requested, log) = walk(&history, &["x", "y"], 10);
    assert_eq!(requested, vec!["x", "r", "y"]);
    assert_eq!(ids(&log), vec!["y", "x", "r"]);
}

#[test]
fn sort_is_newest_first_and_stable() {
    let v = vec![commit("a", 1, &[]), commit("b", 3, &[]), commit("c", 1, &[]), commit("d", 2, &[])];
    assert_eq!(ids(&sort_newest_first(v)), vec!["b", "d", "a", "c"]);
    assert!(sort_newest_first(Vec::new()).is_empty());
}

#[test]
fn failed_diffs_are_passed_over() {
    let d = |p: &str| FileDiff { path: p.to_string(), kind: ChangeKind::Modified, lines: Vec::new() };
    let kept = collect_diffs(vec![Some(d("a")), None, Some(d("b")), None]);
    let paths: Vec<&str> = kept.iter().map(|f| f.path.as_str()).collect();
    assert_eq!(paths, vec!["a", "b"]);
    assert!(collect_diffs(vec![None]).is_empty());
}

#[test]
fn bookmarks_of_a_commit() {
    let bookmarks = vec![
        ("main".to_string(), vec!["c1".to_string()]),
        ("dev".to_string(), vec!["c2".to_string(), "c1".to_string()]),
        ("old".to_string(), vec!["c3".to_string()]),
    ];
    assert_eq!(bookmarks_pointing_at(&bookmarks, &"c1".to_string()), vec!["main".to_string(), "dev".to_string()]);
    assert!(bookmarks_pointing_at(&bookmarks, &"c9".to_string()).is_empty());
}

#[test]
fn gutter_numbers_follow_hunks() {
    let lines = vec![
        DiffLine::Hunk { old_start: 10, old_count: 3, new_start: 20, new_count: 3 },
        DiffLine::Context("a".to_string()),
        DiffLine::Removed("b".to_string()),
        DiffLine::Added("c".to_string()),
        DiffLine::Added("d".to_string()),
        DiffLine::Context("e".to_string()),
    ];
    assert!(gutter_fits(&lines));
    let g = gutter_numbers(&lines);
    let n = |o: Option<u32>, w: Option<u32>| GutterNumbers { old: o, new: w };
    assert_eq!(
        g,
        vec![
            n(None, None),
            n(Some(10), Some(20)),
            n(Some(11), None),
            n(None, Some(21)),
            n(None, Some(22)),
            n(Some(12), Some(23)),
        ]
    );
    let plain = vec![DiffLine::Added("x".to_string()), DiffLine::Context("y".to_string())];
    assert_eq!(gutter_numbers(&plain), vec![n(None, Some(1)), n(Some(1), Some(2))]);
}

#[test]
fn gutter_refuses_overflowing_counters() {
    let lines = vec![
        DiffLine::Hunk { old_start: u32::MAX, old_count: 1, new_start: 1, new_count: 1 },
        DiffLine::Context("a".to_string()),
    ];
    assert!(!gutter_fits(&lines));
    let ok = vec![
        DiffLine::Hunk { old_start: u32::MAX, old_count: 1, new_start: 1, new_count: 1 },
        DiffLine::Added("a".to_string()),
    ];
    assert!(gutter_fits(&ok));
}

#[test]
fn timestamps_from_jj() {
    assert_eq!(Timestamp::from_jj(1000, 60), Timestamp { millis: 1000, offset_seconds: 3600 });
    assert_eq!(Timestamp::from_jj(1000, 24 * 60), Timestamp { millis: 1000, offset_seconds: 0 });
    assert_eq!(Timestamp::from_jj(i64::MAX, 0), Timestamp { millis: 0, offset_seconds: 0 });
    // The first and last instants chrono represents, and one past each.
    let lo: i64 = -8_334_601_228_800_000;
    let hi: i64 = 8_210_266_876_799_999;
    assert_eq!(Timestamp::from_jj(lo, 0).millis, lo);
    assert_eq!(Timestamp::from_jj(hi, 0).millis, hi);
    assert_eq!(Timestamp::from_jj(lo - 1, 0).millis, 0);
    assert_eq!(Timestamp::from_jj(hi + 1, 0).millis, 0);
    assert_eq!(Timestamp { millis: 0, offset_seconds: 0 }.format("%Y-%m-%d"), "1970-01-01");
    assert_eq!(
        Timestamp { millis: 0, offset_seconds: -3600 }.format("%Y-%m-%d %H:%M:%S %z"),
        "1969-12-31 23:00:00 -0100"
    );
}

#[test]
fn commit_stats_sum_the_diffs() {
    let diffs = vec![
        FileDiff {
            path: "a".to_string(),
            kind: ChangeKind::Modified,
            lines: vec![
                DiffLine::Added("x".to_string()),
                DiffLine::Removed("y".to_string()),
                DiffLine::Context("z".to_string()),
            ],
        },
        FileDiff {
            path: "b".to_string(),
            kind: ChangeKind::Added,
            lines: vec![DiffLine::Added("1".to_string()), DiffLine::Added("2".to_string())],
        },
    ];
    assert_eq!(commit_stats(3, &diffs), FileStats { file_count: 3, lines_added: 3, lines_removed: 1 });
    assert_eq!(commit_stats(0, &Vec::new()), FileStats { file_count: 0, lines_added: 0, lines_removed: 0 });
}

#[test]
fn walk_collects_each_commit_once_within_limit() {
    let history = vec![
        commit("m", 40, &["a", "b"]),
        commit("a", 30, &["base"]),
        commit("b", 20, &["base", "a"]),
        commit("base", 10, &[]),
    ];
    for limit in 0..6 {
        let (requested, log) = walk(&history, &["m", "b"], limit);
        let mut seen = requested.clone();
        seen.sort();
        seen.dedup();
        assert_eq!(seen.len(), requested.len());
        assert!(log.len() <= limit);
        assert!(log.windows(2).all(|w| w[0].timestamp.millis >= w[1].timestamp.millis));
    }
}
