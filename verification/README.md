# dojo

A viewer for [jj](https://github.com/jj-vcs/jj) repositories: a commit graph,
the files and line diffs of the selected commit, and an editor for its
description with undo and redo.

## Layout

- `src/` is the library, written in Verus and verified. It holds the logic of
  the viewer with contracts:
  - `components/graph.rs`: the lane layout of the commit graph;
  - `line_diff.rs`: a line diff from a longest common subsequence;
  - `log_walk.rs`: the walk from the heads that collects the log, and its
    newest-first order;
  - `components/description_editor.rs`: the undo/redo stack of the editor;
  - `repo_state.rs`, `components/right_panel.rs`, `screens/`, `app_state.rs`:
    the state of a repository, its panels and tabs, and what each message does
    to them;
  - `text.rs`, `ids.rs`, `timestamp.rs`, `worker.rs`, `widgets/diff.rs`,
    `components/summary.rs`: the texts, ids, dates and figures that the views
    show.
- `app/` is the program around it: the iced window, the jj-lib reads and
  writes, the background worker, and the pixel arithmetic of panes and the
  graph canvas.
- `tests/` runs the library on concrete values.
