use dojo::line_diff::{build_file_diff, compute_diff, longest_common_subsequence, tree_entry_change_kind};
use dojo::repo::{ChangeKind, DiffLine};

fn lines(v: &[&str]) -> Vec<String> {
    v.iter().map(|s| s.to_string()).collect()
}

fn show(d: &[DiffLine]) -> Vec<String> {
    d.iter()
        .map(|l| match l {
            DiffLine::Context(s) => format!(" {}", s),
            DiffLine::Added(s) => format!("+{}", s),
            DiffLine::Removed(s) => format!("-{}", s),
            DiffLine::Hunk { .. } => "@@".to_string(),
        })
        .collect()
}

#[test]
fn lcs_of_empty_sides_is_empty() {
    assert!(longest_common_subsequence(&lines(&[]), &lines(&["a"])).is_empty());
    assert!(longest_common_subsequence(&lines(&["a"]), &lines(&[])).is_empty());
}

#[test]
fn lcs_finds_longest_match() {
    let old = lines(&["a", "b", "c", "d"]);
    let new = lines(&["b", "x", "c", "d"]);
    assert_eq!(longest_common_subsequence(&old, &new), vec![(1, 0), (2, 2), (3, 3)]);
}

#[test]
fn lcs_tie_prefers_moving_left() {
    // Both "a" and "b" are common subsequences of length one; on a tie the
    // walk back drops a line of `new` first, and so keeps the "b".
    let old = lines(&["a", "b"]);
    let new = lines(&["b", "a"]);
    assert_eq!(longest_common_subsequence(&old, &new), vec![(1, 0)]);
}

#[test]
fn diff_of_identical_files_is_all_context() {
    let a = lines(&["x", "y"]);
    assert_eq!(show(&compute_diff(&a, &a)), vec![" x", " y"]);
}

#[test]
fn diff_orders_removed_before_added() {
    let old = lines(&["a", "b", "c"]);
    let new = lines(&["a", "B", "c", "d"]);
    assert_eq!(show(&compute_diff(&old, &new)), vec![" a", "-b", "+B", " c", "+d"]);
}

#[test]
fn diff_of_added_file() {
    let new = lines(&["one", "two"]);
    assert_eq!(show(&compute_diff(&lines(&[]), &new)), vec!["+one", "+two"]);
}

#[test]
fn diff_of_deleted_file() {
    let old = lines(&["one", "two"]);
    assert_eq!(show(&compute_diff(&old, &lines(&[]))), vec!["-one", "-two"]);
}

#[test]
fn diff_reconstructs_both_sides() {
    let old = lines(&["a", "b", "c", "a", "b", "b", "a"]);
    let new = lines(&["c", "b", "a", "b", "a", "c"]);
    let d = compute_diff(&old, &new);
    let old_side: Vec<String> = d
        .iter()
        .filter_map(|l| match l {
            DiffLine::Context(s) | DiffLine::Removed(s) => Some(s.clone()),
            _ => None,
        })
        .collect();
    let new_side: Vec<String> = d
        .iter()
        .filter_map(|l| match l {
            DiffLine::Context(s) | DiffLine::Added(s) => Some(s.clone()),
            _ => None,
        })
        .collect();
    assert_eq!(old_side, old);
    assert_eq!(new_side, new);
    let context = d.iter().filter(|l| matches!(l, DiffLine::Context(_))).count();
    assert_eq!(context, 4);
}

#[test]
fn file_diff_kinds() {
    let added = build_file_diff("f.txt", None, Some("x\ny\n".to_string()));
    assert_eq!(added.kind, ChangeKind::Added);
    assert_eq!(added.path, "f.txt");
    assert_eq!(show(&added.lines), vec!["+x", "+y"]);

    let deleted = build_file_diff("f.txt", Some("x".to_string()), None);
    assert_eq!(deleted.kind, ChangeKind::Deleted);
    assert_eq!(show(&deleted.lines), vec!["-x"]);

    let modified = build_file_diff("f.txt", Some("x\r\ny".to_string()), Some("x\nz".to_string()));
    assert_eq!(modified.kind, ChangeKind::Modified);
    assert_eq!(show(&modified.lines), vec![" x", "-y", "+z"]);

    let neither = build_file_diff("f.txt", None, None);
    assert_eq!(neither.kind, ChangeKind::Modified);
    assert!(neither.lines.is_empty());
}

#[test]
fn tree_entry_kinds() {
    assert_eq!(tree_entry_change_kind(true, true), ChangeKind::Modified);
    assert_eq!(tree_entry_change_kind(false, true), ChangeKind::Added);
    assert_eq!(tree_entry_change_kind(true, false), ChangeKind::Deleted);
    assert_eq!(tree_entry_change_kind(false, false), ChangeKind::Added);
}
