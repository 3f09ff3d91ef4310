//! Layout of the commit graph: one row per commit, each in a column (a lane),
//! and the lines that join commits to their parents.

use vstd::prelude::*;

use crate::repo::{clone_strings, commit_views, texts, CommitInfo, CommitView};
use crate::text::{char_prefix, decimal, decimal_string, first_line, first_line_of, take_chars};
use vstd::string::StrSliceExecFns;
use crate::timestamp::formatted_time;

verus! {

/// State for the graph canvas: the row under the pointer.
#[derive(Debug, Clone, Copy, PartialEq, Eq, Structural)]
pub struct GraphState {
    pub hovered_row: Option<usize>,
}

impl GraphState {
    /// No row is hovered.
    pub fn new() -> (res: GraphState)
        ensures
            res.hovered_row is None,
    {
        GraphState { hovered_row: None }
    }

    /// The pointer moved to `row` (`None`: over no row). Returns whether the
    /// canvas must be redrawn, which is when the hovered row changed.
    pub fn cursor_moved(&mut self, row: Option<usize>) -> (redraw: bool)
        ensures
            final(self).hovered_row == row,
            redraw == (row != old(self).hovered_row),
    {
        let changed = match (row, self.hovered_row) {
            (Some(a), Some(b)) => a != b,
            (None, None) => false,
            _ => true,
        };
        if changed {
            self.hovered_row = row;
        }
        changed
    }

    /// The pointer left the canvas: no row is hovered and the canvas is redrawn.
    pub fn cursor_left(&mut self) -> (redraw: bool)
        ensures
            final(self).hovered_row is None,
            redraw,
    {
        self.hovered_row = None;
        true
    }
}

/// A line in the graph with source and target coordinates (column, row).
#[derive(Debug, Clone, Copy, PartialEq, Eq, Structural)]
pub struct GraphLine {
    pub source_col: usize,
    pub source_row: usize,
    pub target_col: usize,
    /// Row where the line ends (the number of rows when it goes past the last one).
    pub target_row: usize,
    pub indirect: bool,
}

impl GraphLine {
    /// Whether this line passes through the given row.
    pub fn passes_row(&self, row: usize) -> (res: bool)
        ensures
            res == (self.source_row <= row < self.target_row),
    {
        row >= self.source_row && row < self.target_row
    }

    /// Whether this line is vertical (stays in one column).
    pub fn is_vertical(&self) -> (res: bool)
        ensures
            res == (self.source_col == self.target_col),
    {
        self.source_col == self.target_col
    }
}

/// A row in the graph display.
#[derive(Debug)]
pub struct GraphRow {
    pub column: usize,
    pub is_working_copy: bool,
    pub is_immutable: bool,
    pub change_id: String,
    pub description: String,
    pub author: String,
    pub timestamp: String,
    pub bookmarks: Vec<String>,
    pub file_count: Option<usize>,
    pub lines_added: Option<usize>,
    pub lines_removed: Option<usize>,
}

/// The content of a graph row.
pub struct GraphRowView {
    pub column: usize,
    pub is_working_copy: bool,
    pub is_immutable: bool,
    pub change_id: Seq<char>,
    pub description: Seq<char>,
    pub author: Seq<char>,
    pub timestamp: Seq<char>,
    pub bookmarks: Seq<Seq<char>>,
    pub file_count: Option<usize>,
    pub lines_added: Option<usize>,
    pub lines_removed: Option<usize>,
}

impl View for GraphRow {
    type V = GraphRowView;

    open spec fn view(&self) -> GraphRowView {
        GraphRowView {
            column: self.column,
            is_working_copy: self.is_working_copy,
            is_immutable: self.is_immutable,
            change_id: self.change_id@,
            description: self.description@,
            author: self.author@,
            timestamp: self.timestamp@,
            bookmarks: texts(self.bookmarks@),
            file_count: self.file_count,
            lines_added: self.lines_added,
            lines_removed: self.lines_removed,
        }
    }
}

/// The row that shows `c` in `column`: the first eight characters of the change
/// id, the first line of the description, the date and time, and the stats
/// when they are known.
pub open spec fn row_for(c: CommitView, column: int) -> GraphRowView {
    GraphRowView {
        column: column as usize,
        is_working_copy: c.is_working_copy,
        is_immutable: c.is_immutable,
        change_id: char_prefix(c.change_id, 8),
        description: first_line_of(c.description),
        author: c.author,
        timestamp: formatted_time(c.timestamp.millis, c.timestamp.offset_seconds, "%Y-%m-%d %H:%M"@),
        bookmarks: c.bookmarks,
        file_count: match c.file_stats {
            Some(s) => Some(s.file_count),
            None => None,
        },
        lines_added: match c.file_stats {
            Some(s) => Some(s.lines_added),
            None => None,
        },
        lines_removed: match c.file_stats {
            Some(s) => Some(s.lines_removed),
            None => None,
        },
    }
}

/// A vertical line under way, waiting for the commit it leads to.
pub struct StemView {
    pub source_col: int,
    pub source_row: int,
    pub target_id: Seq<char>,
    pub indirect: bool,
}

/// Whether a lane holds a stem that leads to `id`.
pub open spec fn stem_targets(s: Option<StemView>, id: Seq<char>) -> bool {
    match s {
        Some(st) => st.target_id == id,
        None => false,
    }
}

/// The first of the lanes `0..n` whose stem leads to `id`, or -1.
pub open spec fn first_stem_for(stems: Seq<Option<StemView>>, id: Seq<char>, n: nat) -> int
    decreases n,
{
    if n == 0 {
        -1
    } else {
        let r = first_stem_for(stems, id, (n - 1) as nat);
        if r >= 0 {
            r
        } else if stem_targets(stems[n - 1], id) {
            n - 1
        } else {
            -1
        }
    }
}

/// The first free lane among `0..n`, or -1.
pub open spec fn first_free(stems: Seq<Option<StemView>>, n: nat) -> int
    decreases n,
{
    if n == 0 {
        -1
    } else {
        let r = first_free(stems, (n - 1) as nat);
        if r >= 0 {
            r
        } else if stems[n - 1] is None {
            n - 1
        } else {
            -1
        }
    }
}

/// The last of the rows `0..n` that shows commit `id`, or -1.
pub open spec fn last_row_of(commits: Seq<CommitView>, id: Seq<char>, n: nat) -> int
    decreases n,
{
    if n == 0 {
        -1
    } else if commits[n - 1].commit_id == id {
        n - 1
    } else {
        last_row_of(commits, id, (n - 1) as nat)
    }
}

/// The row of commit `id`; past the last row when the log does not show it.
pub open spec fn parent_row(commits: Seq<CommitView>, id: Seq<char>) -> int {
    let r = last_row_of(commits, id, commits.len());
    if r >= 0 {
        r
    } else {
        commits.len() as int
    }
}

/// The highest lane among `0..n` that holds a stem, or -1.
pub open spec fn highest_stem(stems: Seq<Option<StemView>>, n: nat) -> int
    decreases n,
{
    if n == 0 {
        -1
    } else if stems[n - 1] is Some {
        n - 1
    } else {
        highest_stem(stems, (n - 1) as nat)
    }
}

/// The lane of a commit: the one whose stem leads to it, else the first free
/// lane, else a new lane.
pub open spec fn row_column(stems: Seq<Option<StemView>>, id: Seq<char>) -> int {
    let t = first_stem_for(stems, id, stems.len());
    if t >= 0 {
        t
    } else {
        let f = first_free(stems, stems.len());
        if f >= 0 {
            f
        } else {
            stems.len() as int
        }
    }
}

/// Handling of the `i`-th parent edge of the commit at (`column`, `row`): a
/// parent that already has a stem in another lane gets a line to that lane;
/// otherwise a stem to the parent starts, in the commit's own lane for a first
/// parent when that lane is free, else in a new lane.
pub open spec fn add_parent(
    stems: Seq<Option<StemView>>,
    lines: Seq<GraphLine>,
    commits: Seq<CommitView>,
    column: int,
    row: int,
    i: int,
    edge: (Seq<char>, bool),
) -> (Seq<Option<StemView>>, Seq<GraphLine>) {
    let existing = first_stem_for(stems, edge.0, stems.len());
    if existing >= 0 {
        if existing != column {
            (
                stems,
                lines.push(
                    GraphLine {
                        source_col: column as usize,
                        source_row: row as usize,
                        target_col: existing as usize,
                        target_row: parent_row(commits, edge.0) as usize,
                        indirect: edge.1,
                    },
                ),
            )
        } else {
            (stems, lines)
        }
    } else {
        let stem = StemView {
            source_col: column,
            source_row: row,
            target_id: edge.0,
            indirect: edge.1,
        };
        if i == 0 && stems[column] is None {
            (stems.update(column, Some(stem)), lines)
        } else {
            (stems.push(Some(stem)), lines)
        }
    }
}

/// Handling of the first `n` parent edges, in order.
pub open spec fn add_parents(
    stems: Seq<Option<StemView>>,
    lines: Seq<GraphLine>,
    commits: Seq<CommitView>,
    column: int,
    row: int,
    edges: Seq<(Seq<char>, bool)>,
    n: nat,
) -> (Seq<Option<StemView>>, Seq<GraphLine>)
    decreases n,
{
    if n == 0 {
        (stems, lines)
    } else {
        let prev = add_parents(stems, lines, commits, column, row, edges, (n - 1) as nat);
        add_parent(prev.0, prev.1, commits, column, row, n - 1, edges[n - 1])
    }
}

/// Where the layout stands after some rows: the lanes, the lines so far,
/// the lane of each row, and the highest lane used.
pub struct LayoutState {
    pub stems: Seq<Option<StemView>>,
    pub lines: Seq<GraphLine>,
    pub columns: Seq<int>,
    pub max_column: int,
}

/// The layout after placing the commit of `row`: it takes its lane, the stem
/// that led to it there becomes a line, its parent edges are handled, and the
/// highest lane in use is recorded.
pub open spec fn layout_row(st: LayoutState, commits: Seq<CommitView>, row: int) -> LayoutState {
    let c = commits[row];
    let column = row_column(st.stems, c.commit_id);
    let stems1 = if column == st.stems.len() {
        st.stems.push(None)
    } else {
        st.stems
    };
    let lines1 = match stems1[column] {
        Some(t) => st.lines.push(
            GraphLine {
                source_col: t.source_col as usize,
                source_row: t.source_row as usize,
                target_col: column as usize,
                target_row: row as usize,
                indirect: t.indirect,
            },
        ),
        None => st.lines,
    };
    let stems2 = stems1.update(column, None);
    let after = add_parents(
        stems2,
        lines1,
        commits,
        column,
        row,
        c.parent_edges,
        c.parent_edges.len(),
    );
    let hi = highest_stem(after.0, after.0.len());
    let m1 = if column > st.max_column {
        column
    } else {
        st.max_column
    };
    LayoutState {
        stems: after.0,
        lines: after.1,
        columns: st.columns.push(column),
        max_column: if hi > m1 {
            hi
        } else {
            m1
        },
    }
}

/// The layout after the first `n` rows.
pub open spec fn layout(commits: Seq<CommitView>, n: nat) -> LayoutState
    decreases n,
{
    if n == 0 {
        LayoutState { stems: Seq::empty(), lines: Seq::empty(), columns: Seq::empty(), max_column: 0 }
    } else {
        layout_row(layout(commits, (n - 1) as nat), commits, n - 1)
    }
}

/// Lines for the stems still under way in lanes `0..n` after the last row:
/// they run past the bottom.
pub open spec fn closing_lines(stems: Seq<Option<StemView>>, n: nat, num_rows: int) -> Seq<
    GraphLine,
>
    decreases n,
{
    if n == 0 {
        Seq::empty()
    } else {
        let prev = closing_lines(stems, (n - 1) as nat, num_rows);
        match stems[n - 1] {
            Some(t) => prev.push(
                GraphLine {
                    source_col: t.source_col as usize,
                    source_row: t.source_row as usize,
                    target_col: (n - 1) as usize,
                    target_row: num_rows as usize,
                    indirect: t.indirect,
                },
            ),
            None => prev,
        }
    }
}

/// All lines of the graph of `commits`.
pub open spec fn graph_lines(commits: Seq<CommitView>) -> Seq<GraphLine> {
    let st = layout(commits, commits.len());
    st.lines + closing_lines(st.stems, st.stems.len(), commits.len() as int)
}


/// Every stem in `stems` points back at a row before `n` and a lane at most `m`,
/// and sits in a lane at most `m`.
pub open spec fn stems_within(stems: Seq<Option<StemView>>, m: int, n: int) -> bool {
    forall|k: int|
        0 <= k < stems.len() && (#[trigger] stems[k]) is Some ==> {
            &&& k <= m
            &&& 0 <= stems[k]->0.source_col <= m
            &&& 0 <= stems[k]->0.source_row < n
        }
}

/// Every line joins lanes at most `m`, starts at a row before `n` and ends at a
/// row at most `last`.
pub open spec fn lines_within(lines: Seq<GraphLine>, m: int, n: int, last: int) -> bool {
    forall|j: int|
        0 <= j < lines.len() ==> {
            &&& (#[trigger] lines[j]).source_col <= m
            &&& lines[j].target_col <= m
            &&& lines[j].source_row < n
            &&& lines[j].target_row <= last
        }
}

/// The number of lanes that the first `n` rows can open at most.
pub open spec fn lane_budget(commits: Seq<CommitView>, n: nat) -> nat
    decreases n,
{
    if n == 0 {
        0
    } else {
        lane_budget(commits, (n - 1) as nat) + 1 + commits[n - 1].parent_edges.len()
    }
}

proof fn lemma_lane_budget_mono(commits: Seq<CommitView>, m: nat, n: nat)
    requires
        m <= n,
    ensures
        lane_budget(commits, m) <= lane_budget(commits, n),
    decreases n - m,
{
    if m < n {
        lemma_lane_budget_mono(commits, m, (n - 1) as nat);
    }
}

proof fn lemma_highest_stem(stems: Seq<Option<StemView>>, n: nat)
    requires
        n <= stems.len(),
    ensures
        -1 <= highest_stem(stems, n) < n,
        forall|k: int| 0 <= k < n && (#[trigger] stems[k]) is Some ==> k <= highest_stem(stems, n),
    decreases n,
{
    if n > 0 {
        lemma_highest_stem(stems, (n - 1) as nat);
    }
}

/// What the parent edges of one commit add: lanes are only added or filled,
/// every new stem and line starts at the commit, and every new line ends in a
/// lane that holds a stem at the end.
proof fn lemma_add_parents_effect(
    stems: Seq<Option<StemView>>,
    lines: Seq<GraphLine>,
    commits: Seq<CommitView>,
    column: int,
    row: int,
    edges: Seq<(Seq<char>, bool)>,
    n: nat,
)
    requires
        0 <= column < stems.len(),
        0 <= row < commits.len(),
        n <= edges.len(),
        stems.len() + n <= usize::MAX,
        commits.len() <= usize::MAX,
    ensures
        ({
            let res = add_parents(stems, lines, commits, column, row, edges, n);
            &&& stems.len() <= res.0.len() <= stems.len() + n
            &&& forall|k: int| 0 <= k < stems.len() && stems[k] is Some ==> #[trigger] res.0[k] == stems[k]
            &&& forall|k: int|
                0 <= k < res.0.len() && (#[trigger] res.0[k]) is Some ==> (k < stems.len() && res.0[k]
                    == stems[k]) || (res.0[k]->0.source_col == column && res.0[k]->0.source_row == row)
            &&& lines.len() <= res.1.len()
            &&& forall|j: int| 0 <= j < lines.len() ==> #[trigger] res.1[j] == lines[j]
            &&& forall|j: int|
                lines.len() <= j < res.1.len() ==> {
                    &&& (#[trigger] res.1[j]).source_col == column
                    &&& res.1[j].source_row == row
                    &&& res.1[j].target_row <= commits.len()
                    &&& res.1[j].target_col < res.0.len()
                    &&& res.0[res.1[j].target_col as int] is Some
                }
        }),
    decreases n,
{
    if n > 0 {
        lemma_add_parents_effect(stems, lines, commits, column, row, edges, (n - 1) as nat);
        let prev = add_parents(stems, lines, commits, column, row, edges, (n - 1) as nat);
        let edge = edges[n - 1];
        lemma_first_stem_bounds(prev.0, edge.0, prev.0.len());
        let existing = first_stem_for(prev.0, edge.0, prev.0.len());
        let r = last_row_of(commits, edge.0, commits.len());
        lemma_last_row_bounds(commits, edge.0, commits.len());
        let res = add_parents(stems, lines, commits, column, row, edges, n);
        assert(res == add_parent(prev.0, prev.1, commits, column, row, n - 1, edge));
        if existing >= 0 {
            if existing != column {
                assert(res.1 == prev.1.push(res.1[prev.1.len() as int]));
                assert forall|j: int| lines.len() <= j < res.1.len() implies {
                    &&& (#[trigger] res.1[j]).source_col == column
                    &&& res.1[j].source_row == row
                    &&& res.1[j].target_row <= commits.len()
                    &&& res.1[j].target_col < res.0.len()
                    &&& res.0[res.1[j].target_col as int] is Some
                } by {
                    if j < prev.1.len() {
                        assert(res.1[j] == prev.1[j]);
                    }
                }
            }
        } else {
            let stem = StemView {
                source_col: column,
                source_row: row,
                target_id: edge.0,
                indirect: edge.1,
            };
            if (n - 1) == 0 && prev.0[column] is None {
                assert(res.0 == prev.0.update(column, Some(stem)));
                assert forall|j: int| lines.len() <= j < res.1.len() implies res.0[(
                #[trigger] res.1[j]).target_col as int] is Some by {
                    let t = res.1[j].target_col as int;
                    if t != column {
                        assert(res.0[t] == prev.0[t]);
                    }
                }
            } else {
                assert(res.0 == prev.0.push(Some(stem)));
                assert forall|j: int| lines.len() <= j < res.1.len() implies res.0[(
                #[trigger] res.1[j]).target_col as int] is Some by {
                    let t = res.1[j].target_col as int;
                    assert(res.0[t] == prev.0[t]);
                }
            }
        }
    }
}

proof fn lemma_last_row_bounds(commits: Seq<CommitView>, id: Seq<char>, n: nat)
    requires
        n <= commits.len(),
    ensures
        -1 <= last_row_of(commits, id, n) < n,
    decreases n,
{
    if n > 0 {
        lemma_last_row_bounds(commits, id, (n - 1) as nat);
    }
}

/// After `n` rows the layout keeps every lane, stem and line within the
/// highest lane it records, and within the rows placed so far.
proof fn lemma_layout_within(commits: Seq<CommitView>, n: nat)
    requires
        n <= commits.len(),
        lane_budget(commits, commits.len()) <= usize::MAX,
        commits.len() <= usize::MAX,
    ensures
        ({
            let st = layout(commits, n);
            &&& st.columns.len() == n
            &&& 0 <= st.max_column <= st.stems.len()
            &&& st.stems.len() <= lane_budget(commits, n)
            &&& forall|r: int| 0 <= r < n ==> 0 <= #[trigger] st.columns[r] <= st.max_column
            &&& stems_within(st.stems, st.max_column, n as int)
            &&& lines_within(st.lines, st.max_column, n as int, commits.len() as int)
        }),
    decreases n,
{
    if n > 0 {
        let row = n - 1;
        lemma_layout_within(commits, (n - 1) as nat);
        lemma_lane_budget_mono(commits, n, commits.len());
        let st = layout(commits, (n - 1) as nat);
        let c = commits[row];
        lemma_first_stem_bounds(st.stems, c.commit_id, st.stems.len());
        lemma_first_free_bounds(st.stems, st.stems.len());
        let column = row_column(st.stems, c.commit_id);
        let stems1 = if column == st.stems.len() {
            st.stems.push(None)
        } else {
            st.stems
        };
        let lines1 = match stems1[column] {
            Some(t) => st.lines.push(
                GraphLine {
                    source_col: t.source_col as usize,
                    source_row: t.source_row as usize,
                    target_col: column as usize,
                    target_row: row as usize,
                    indirect: t.indirect,
                },
            ),
            None => st.lines,
        };
        let stems2 = stems1.update(column, None);
        lemma_add_parents_effect(
            stems2,
            lines1,
            commits,
            column,
            row,
            c.parent_edges,
            c.parent_edges.len(),
        );
        let after = add_parents(
            stems2,
            lines1,
            commits,
            column,
            row,
            c.parent_edges,
            c.parent_edges.len(),
        );
        lemma_highest_stem(after.0, after.0.len());
        let next = layout(commits, n);
        assert(next == layout_row(st, commits, row));
        let m = next.max_column;
        assert(m >= st.max_column && m >= column);
        assert(m >= highest_stem(after.0, after.0.len()));
        assert(next.stems == after.0 && next.lines == after.1);
        assert forall|r: int| 0 <= r < n implies 0 <= #[trigger] next.columns[r] <= m by {
            if r < row {
                assert(next.columns[r] == st.columns[r]);
            }
        }
        assert forall|k: int| 0 <= k < after.0.len() && (#[trigger] after.0[k]) is Some implies {
            &&& k <= m
            &&& 0 <= after.0[k]->0.source_col <= m
            &&& 0 <= after.0[k]->0.source_row < n
        } by {
            if k < stems2.len() && after.0[k] == stems2[k] {
                assert(k != column);
                assert(stems2[k] == st.stems[k]);
            }
        }
        assert forall|j: int| 0 <= j < after.1.len() implies {
            &&& (#[trigger] after.1[j]).source_col <= m
            &&& after.1[j].target_col <= m
            &&& after.1[j].source_row < n
            &&& after.1[j].target_row <= commits.len()
        } by {
            if j < lines1.len() {
                assert(after.1[j] == lines1[j]);
                if j < st.lines.len() {
                    assert(lines1[j] == st.lines[j]);
                } else {
                    assert(stems1[column] == st.stems[column]);
                }
            } else {
                let t = after.1[j].target_col as int;
                assert(after.0[t] is Some);
            }
        }
    }
}

/// The highest lane that the graph of `commits` records covers every lane it
/// uses: the lane of every row and both ends of every line, including the
/// lines that run past the last row. Every line starts at a shown row and ends
/// at a shown row or just past the last one.
pub proof fn lemma_graph_within_max_column(commits: Seq<CommitView>)
    requires
        lane_budget(commits, commits.len()) <= usize::MAX,
    ensures
        ({
            let st = layout(commits, commits.len());
            let all = graph_lines(commits);
            &&& forall|r: int| 0 <= r < commits.len() ==> #[trigger] st.columns[r] <= st.max_column
            &&& forall|j: int|
                0 <= j < all.len() ==> {
                    &&& (#[trigger] all[j]).source_col <= st.max_column
                    &&& all[j].target_col <= st.max_column
                    &&& all[j].source_row < commits.len()
                    &&& all[j].target_row <= commits.len()
                }
        }),
{
    assert(commits.len() <= lane_budget(commits, commits.len())) by {
        lemma_budget_at_least_rows(commits, commits.len());
    }
    lemma_layout_within(commits, commits.len());
    let st = layout(commits, commits.len());
    lemma_closing_within(st.stems, st.stems.len(), st.max_column, commits.len() as int);
    let closing = closing_lines(st.stems, st.stems.len(), commits.len() as int);
    let all = graph_lines(commits);
    assert forall|j: int| 0 <= j < all.len() implies {
        &&& (#[trigger] all[j]).source_col <= st.max_column
        &&& all[j].target_col <= st.max_column
        &&& all[j].source_row < commits.len()
        &&& all[j].target_row <= commits.len()
    } by {
        if j < st.lines.len() {
            assert(all[j] == st.lines[j]);
        } else {
            assert(all[j] == closing[j - st.lines.len()]);
        }
    }
}

proof fn lemma_budget_at_least_rows(commits: Seq<CommitView>, n: nat)
    ensures
        n <= lane_budget(commits, n),
    decreases n,
{
    if n > 0 {
        lemma_budget_at_least_rows(commits, (n - 1) as nat);
    }
}

proof fn lemma_closing_within(stems: Seq<Option<StemView>>, n: nat, m: int, rows: int)
    requires
        n <= stems.len(),
        stems_within(stems, m, rows),
        0 <= rows <= usize::MAX,
        m <= usize::MAX,
    ensures
        lines_within(closing_lines(stems, n, rows), m, rows, rows),
    decreases n,
{
    if n > 0 {
        lemma_closing_within(stems, (n - 1) as nat, m, rows);
        let prev = closing_lines(stems, (n - 1) as nat, rows);
        let cur = closing_lines(stems, n, rows);
        if stems[n - 1] is Some {
            assert forall|j: int| 0 <= j < cur.len() implies {
                &&& (#[trigger] cur[j]).source_col <= m
                &&& cur[j].target_col <= m
                &&& cur[j].source_row < rows
                &&& cur[j].target_row <= rows
            } by {
                if j < prev.len() {
                    assert(cur[j] == prev[j]);
                }
            }
        }
    }
}

/// No two lanes hold stems that lead to the same commit.
pub open spec fn targets_distinct(stems: Seq<Option<StemView>>) -> bool {
    forall|a: int, b: int|
        0 <= a < stems.len() && 0 <= b < stems.len() && a != b && (#[trigger] stems[a]) is Some
            && (#[trigger] stems[b]) is Some ==> stems[a]->0.target_id != stems[b]->0.target_id
}

/// No two rows show the same commit.
pub open spec fn ids_unique(commits: Seq<CommitView>) -> bool {
    forall|i: int, j: int|
        0 <= i < j < commits.len() ==> (#[trigger] commits[i]).commit_id != (
        #[trigger] commits[j]).commit_id
}

/// Every parent that the log shows is shown below its child.
pub open spec fn parents_below(commits: Seq<CommitView>) -> bool {
    forall|r: int, e: int, j: int|
        0 <= r < commits.len() && 0 <= e < commits[r].parent_edges.len() && 0 <= j < commits.len()
            && (#[trigger] commits[j]).commit_id == (#[trigger] commits[r].parent_edges[e]).0 ==> r < j
}

proof fn lemma_first_stem_unique(stems: Seq<Option<StemView>>, id: Seq<char>, k: int, n: nat)
    requires
        targets_distinct(stems),
        0 <= k < stems.len(),
        stem_targets(stems[k], id),
        n <= stems.len(),
    ensures
        n <= k ==> first_stem_for(stems, id, n) == -1,
        n > k ==> first_stem_for(stems, id, n) == k,
    decreases n,
{
    if n > 0 {
        lemma_first_stem_unique(stems, id, k, (n - 1) as nat);
        if n - 1 != k && stem_targets(stems[n - 1], id) {
            assert(stems[n - 1] is Some && stems[k] is Some);
            assert(false);
        }
    }
}

proof fn lemma_first_stem_none(stems: Seq<Option<StemView>>, id: Seq<char>, n: nat)
    requires
        n <= stems.len(),
        first_stem_for(stems, id, n) == -1,
    ensures
        forall|k: int| 0 <= k < n ==> !stem_targets(#[trigger] stems[k], id),
    decreases n,
{
    if n > 0 {
        lemma_first_stem_none(stems, id, (n - 1) as nat);
    }
}

proof fn lemma_last_row_is(commits: Seq<CommitView>, id: Seq<char>, n: nat)
    requires
        n <= commits.len(),
    ensures
        last_row_of(commits, id, n) >= 0 ==> commits[last_row_of(commits, id, n)].commit_id == id,
    decreases n,
{
    if n > 0 {
        lemma_last_row_is(commits, id, (n - 1) as nat);
    }
}

/// What the parent edges of one commit add, for the lanes: stems still lead
/// to distinct commits, and every new line ends in the lane of the stem that
/// leads to the commit of its target row, below the commit.
proof fn lemma_add_parents_lanes(
    stems: Seq<Option<StemView>>,
    lines: Seq<GraphLine>,
    commits: Seq<CommitView>,
    column: int,
    row: int,
    edges: Seq<(Seq<char>, bool)>,
    n: nat,
)
    requires
        0 <= column < stems.len(),
        0 <= row < commits.len(),
        n <= edges.len(),
        stems.len() + n <= usize::MAX,
        commits.len() <= usize::MAX,
        targets_distinct(stems),
        forall|e: int| 0 <= e < edges.len() ==> parent_row(commits, (#[trigger] edges[e]).0) > row,
    ensures
        ({
            let res = add_parents(stems, lines, commits, column, row, edges, n);
            &&& targets_distinct(res.0)
            &&& forall|j: int|
                lines.len() <= j < res.1.len() ==> {
                    &&& row < (#[trigger] res.1[j]).target_row
                    &&& res.1[j].target_col < res.0.len()
                    &&& (res.1[j].target_row < commits.len() ==> stem_targets(
                        res.0[res.1[j].target_col as int],
                        commits[res.1[j].target_row as int].commit_id,
                    ))
                }
        }),
    decreases n,
{
    lemma_add_parents_effect(stems, lines, commits, column, row, edges, n);
    if n > 0 {
        lemma_add_parents_lanes(stems, lines, commits, column, row, edges, (n - 1) as nat);
        lemma_add_parents_effect(stems, lines, commits, column, row, edges, (n - 1) as nat);
        let prev = add_parents(stems, lines, commits, column, row, edges, (n - 1) as nat);
        let edge = edges[n - 1];
        lemma_first_stem_bounds(prev.0, edge.0, prev.0.len());
        let existing = first_stem_for(prev.0, edge.0, prev.0.len());
        lemma_last_row_bounds(commits, edge.0, commits.len());
        lemma_last_row_is(commits, edge.0, commits.len());
        assert(parent_row(commits, edge.0) > row);
        let res = add_parents(stems, lines, commits, column, row, edges, n);
        assert(res == add_parent(prev.0, prev.1, commits, column, row, n - 1, edge));
        if existing >= 0 {
            if existing != column {
                assert forall|j: int| lines.len() <= j < res.1.len() implies {
                    &&& row < (#[trigger] res.1[j]).target_row
                    &&& res.1[j].target_col < res.0.len()
                    &&& (res.1[j].target_row < commits.len() ==> stem_targets(
                        res.0[res.1[j].target_col as int],
                        commits[res.1[j].target_row as int].commit_id,
                    ))
                } by {
                    if j < prev.1.len() {
                        assert(res.1[j] == prev.1[j]);
                    }
                }
            }
        } else {
            lemma_first_stem_none(prev.0, edge.0, prev.0.len());
            let stem = StemView {
                source_col: column,
                source_row: row,
                target_id: edge.0,
                indirect: edge.1,
            };
            let updated = (n - 1) == 0 && prev.0[column] is None;
            if updated {
                assert(res.0 == prev.0.update(column, Some(stem)));
            } else {
                assert(res.0 == prev.0.push(Some(stem)));
            }
            let at = if updated { column } else { prev.0.len() as int };
            assert forall|k: int| 0 <= k < res.0.len() && k != at implies #[trigger] res.0[k]
                == prev.0[k] by {}
            assert(res.0[at] == Some(stem));
            assert forall|a: int, b: int|
                0 <= a < res.0.len() && 0 <= b < res.0.len() && a != b && (#[trigger] res.0[a]) is Some
                    && (#[trigger] res.0[b]) is Some implies res.0[a]->0.target_id
                    != res.0[b]->0.target_id by {
                if a == at {
                    assert(res.0[b] == prev.0[b]);
                    assert(!stem_targets(prev.0[b], edge.0));
                } else if b == at {
                    assert(res.0[a] == prev.0[a]);
                    assert(!stem_targets(prev.0[a], edge.0));
                } else {
                    assert(res.0[a] == prev.0[a]);
                    assert(res.0[b] == prev.0[b]);
                }
            }
            assert forall|j: int| lines.len() <= j < res.1.len() implies {
                &&& row < (#[trigger] res.1[j]).target_row
                &&& res.1[j].target_col < res.0.len()
                &&& (res.1[j].target_row < commits.len() ==> stem_targets(
                    res.0[res.1[j].target_col as int],
                    commits[res.1[j].target_row as int].commit_id,
                ))
            } by {
                let t = res.1[j].target_col as int;
                assert(res.1[j] == prev.1[j]);
                assert(prev.0[t] is Some);
                assert(t != at);
                assert(res.0[t] == prev.0[t]);
            }
        }
    }
}

/// The lanes of the layout after `m` rows follow its rows: stems lead to
/// distinct commits and start in the lane of their row; every line starts in
/// the lane of its row and ends at a later row, in that row's lane once it is
/// placed and, until then, in the lane of the stem that leads to it.
pub open spec fn lanes_follow_rows(st: LayoutState, commits: Seq<CommitView>, m: int) -> bool {
    &&& targets_distinct(st.stems)
    &&& forall|k: int|
        0 <= k < st.stems.len() && (#[trigger] st.stems[k]) is Some ==> {
            &&& 0 <= st.stems[k]->0.source_row < m
            &&& st.stems[k]->0.source_col == st.columns[st.stems[k]->0.source_row]
        }
    &&& forall|j: int|
        0 <= j < st.lines.len() ==> {
            &&& (#[trigger] st.lines[j]).source_row < m
            &&& st.lines[j].source_col == st.columns[st.lines[j].source_row as int]
            &&& st.lines[j].source_row < st.lines[j].target_row
            &&& (st.lines[j].target_row < m ==> st.lines[j].target_col
                == st.columns[st.lines[j].target_row as int])
            &&& (m <= st.lines[j].target_row < commits.len() ==> st.lines[j].target_col
                < st.stems.len() && stem_targets(
                st.stems[st.lines[j].target_col as int],
                commits[st.lines[j].target_row as int].commit_id,
            ))
        }
}

proof fn lemma_layout_lanes(commits: Seq<CommitView>, n: nat)
    requires
        n <= commits.len(),
        lane_budget(commits, commits.len()) <= usize::MAX,
        ids_unique(commits),
        parents_below(commits),
    ensures
        lanes_follow_rows(layout(commits, n), commits, n as int),
    decreases n,
{
    lemma_budget_at_least_rows(commits, commits.len());
    if n == 0 {
        return;
    }
    let row = n - 1;
    lemma_layout_lanes(commits, (n - 1) as nat);
    lemma_layout_within(commits, (n - 1) as nat);
    lemma_lane_budget_mono(commits, n, commits.len());
    let st = layout(commits, (n - 1) as nat);
    let c = commits[row];
    let id = c.commit_id;
    lemma_first_stem_bounds(st.stems, id, st.stems.len());
    lemma_first_free_bounds(st.stems, st.stems.len());
    let column = row_column(st.stems, id);
    let stems1 = if column == st.stems.len() {
        st.stems.push(None)
    } else {
        st.stems
    };
    let lines1 = match stems1[column] {
        Some(t) => st.lines.push(
            GraphLine {
                source_col: t.source_col as usize,
                source_row: t.source_row as usize,
                target_col: column as usize,
                target_row: row as usize,
                indirect: t.indirect,
            },
        ),
        None => st.lines,
    };
    let stems2 = stems1.update(column, None);
    let edges = c.parent_edges;
    assert forall|e: int| 0 <= e < edges.len() implies parent_row(commits, (#[trigger] edges[e]).0)
        > row by {
        lemma_last_row_bounds(commits, edges[e].0, commits.len());
        lemma_last_row_is(commits, edges[e].0, commits.len());
        let r = last_row_of(commits, edges[e].0, commits.len());
        if r >= 0 {
            assert(commits[r].commit_id == commits[row].parent_edges[e].0);
        }
    }
    assert forall|k: int| 0 <= k < stems2.len() && k != column implies #[trigger] stems2[k]
        == st.stems[k] by {}
    assert forall|a: int, b: int|
        0 <= a < stems2.len() && 0 <= b < stems2.len() && a != b && (#[trigger] stems2[a]) is Some
            && (#[trigger] stems2[b]) is Some implies stems2[a]->0.target_id
            != stems2[b]->0.target_id by {
        assert(stems2[a] == st.stems[a] && stems2[b] == st.stems[b]);
    }
    lemma_add_parents_effect(stems2, lines1, commits, column, row, edges, edges.len());
    lemma_add_parents_lanes(stems2, lines1, commits, column, row, edges, edges.len());
    let after = add_parents(stems2, lines1, commits, column, row, edges, edges.len());
    let next = layout(commits, n);
    assert(next == layout_row(st, commits, row));
    assert(next.stems == after.0 && next.lines == after.1);
    assert(next.columns == st.columns.push(column));
    assert forall|r: int| 0 <= r < row implies #[trigger] next.columns[r] == st.columns[r] by {}
    assert(next.columns[row] == column);

    assert forall|k: int| 0 <= k < after.0.len() && (#[trigger] after.0[k]) is Some implies {
        &&& 0 <= after.0[k]->0.source_row < n
        &&& after.0[k]->0.source_col == next.columns[after.0[k]->0.source_row]
    } by {
        if k < stems2.len() && after.0[k] == stems2[k] {
            assert(k != column);
            assert(stems2[k] == st.stems[k]);
        }
    }
    assert forall|j: int| 0 <= j < after.1.len() implies {
        &&& (#[trigger] after.1[j]).source_row < n
        &&& after.1[j].source_col == next.columns[after.1[j].source_row as int]
        &&& after.1[j].source_row < after.1[j].target_row
        &&& (after.1[j].target_row < n ==> after.1[j].target_col
            == next.columns[after.1[j].target_row as int])
        &&& (n <= after.1[j].target_row < commits.len() ==> after.1[j].target_col
            < after.0.len() && stem_targets(
            after.0[after.1[j].target_col as int],
            commits[after.1[j].target_row as int].commit_id,
        ))
    } by {
        if j < lines1.len() {
            assert(after.1[j] == lines1[j]);
            if j < st.lines.len() {
                let l = st.lines[j];
                assert(lines1[j] == l);
                let tr = l.target_row as int;
                let tc = l.target_col as int;
                if tr == row {
                    lemma_first_stem_unique(st.stems, id, tc, st.stems.len());
                    assert(column == tc);
                } else if row < tr < commits.len() {
                    assert(commits[row].commit_id != commits[tr].commit_id);
                    if tc == column {
                        lemma_first_stem_unique(st.stems, commits[tr].commit_id, tc, st.stems.len());
                        assert(st.stems[tc] is Some);
                        if first_stem_for(st.stems, id, st.stems.len()) >= 0 {
                            assert(stem_targets(st.stems[tc], id));
                        }
                        assert(false);
                    }
                    assert(stems2[tc] == st.stems[tc]);
                    assert(after.0[tc] == stems2[tc]);
                }
            } else {
                let t = stems1[column]->0;
                assert(column < st.stems.len());
                assert(stems1[column] == st.stems[column]);
                assert(st.stems[column] is Some);
            }
        }
    }
}

proof fn lemma_closing_lanes(stems: Seq<Option<StemView>>, n: nat, cols: Seq<int>, rows: int)
    requires
        n <= stems.len(),
        0 <= rows <= usize::MAX,
        forall|k: int|
            0 <= k < stems.len() && (#[trigger] stems[k]) is Some ==> {
                &&& 0 <= stems[k]->0.source_row < rows
                &&& stems[k]->0.source_col == cols[stems[k]->0.source_row]
                &&& 0 <= stems[k]->0.source_col <= usize::MAX
            },
    ensures
        forall|j: int|
            0 <= j < closing_lines(stems, n, rows).len() ==> {
                &&& (#[trigger] closing_lines(stems, n, rows)[j]).source_row < rows
                &&& closing_lines(stems, n, rows)[j].target_row == rows
                &&& closing_lines(stems, n, rows)[j].source_col == cols[closing_lines(
                    stems,
                    n,
                    rows,
                )[j].source_row as int]
            },
    decreases n,
{
    if n > 0 {
        lemma_closing_lanes(stems, (n - 1) as nat, cols, rows);
        let prev = closing_lines(stems, (n - 1) as nat, rows);
        let cur = closing_lines(stems, n, rows);
        assert forall|j: int| 0 <= j < cur.len() implies {
            &&& (#[trigger] cur[j]).source_row < rows
            &&& cur[j].target_row == rows
            &&& cur[j].source_col == cols[cur[j].source_row as int]
        } by {
            if j < prev.len() {
                assert(cur[j] == prev[j]);
            }
        }
    }
}

/// When every commit is shown once and below the commits whose parent it is,
/// every line of the graph runs down from a row to a later row, leaving from
/// the lane of its first row and, unless it runs past the last row, arriving
/// in the lane of its second row.
pub proof fn lemma_graph_lines_follow_lanes(commits: Seq<CommitView>)
    requires
        lane_budget(commits, commits.len()) <= usize::MAX,
        ids_unique(commits),
        parents_below(commits),
    ensures
        ({
            let st = layout(commits, commits.len());
            let all = graph_lines(commits);
            forall|j: int|
                0 <= j < all.len() ==> {
                    &&& (#[trigger] all[j]).source_row < all[j].target_row <= commits.len()
                    &&& all[j].source_col == st.columns[all[j].source_row as int]
                    &&& (all[j].target_row < commits.len() ==> all[j].target_col
                        == st.columns[all[j].target_row as int])
                }
        }),
{
    lemma_budget_at_least_rows(commits, commits.len());
    lemma_layout_lanes(commits, commits.len());
    lemma_layout_within(commits, commits.len());
    let st = layout(commits, commits.len());
    assert forall|k: int| 0 <= k < st.stems.len() && (#[trigger] st.stems[k]) is Some implies 0
        <= st.stems[k]->0.source_col <= usize::MAX by {}
    lemma_closing_lanes(st.stems, st.stems.len(), st.columns, commits.len() as int);
    let closing = closing_lines(st.stems, st.stems.len(), commits.len() as int);
    let all = graph_lines(commits);
    assert forall|j: int| 0 <= j < all.len() implies {
        &&& (#[trigger] all[j]).source_row < all[j].target_row <= commits.len()
        &&& all[j].source_col == st.columns[all[j].source_row as int]
        &&& (all[j].target_row < commits.len() ==> all[j].target_col
            == st.columns[all[j].target_row as int])
    } by {
        if j < st.lines.len() {
            assert(all[j] == st.lines[j]);
        } else {
            assert(all[j] == closing[j - st.lines.len()]);
        }
    }
}

/// Some line of `lines` leaves row `r` and ends at row `p`.
pub open spec fn drawn(lines: Seq<GraphLine>, r: int, p: int) -> bool {
    exists|j: int|
        0 <= j < lines.len() && (#[trigger] lines[j]).source_row as int == r && lines[j].target_row
            as int == p
}

/// Some lane holds a stem that leaves row `r` toward commit `id`.
pub open spec fn stem_from(stems: Seq<Option<StemView>>, r: int, id: Seq<char>) -> bool {
    exists|k: int|
        0 <= k < stems.len() && (#[trigger] stems[k]) is Some && stems[k]->0.source_row == r
            && stems[k]->0.target_id == id
}

/// Each parent edge of the commit at `row` is either drawn as a line to the
/// parent's row, or leaves a stem from the row toward the parent.
proof fn lemma_add_parents_drawn(
    stems: Seq<Option<StemView>>,
    lines: Seq<GraphLine>,
    commits: Seq<CommitView>,
    column: int,
    row: int,
    edges: Seq<(Seq<char>, bool)>,
    n: nat,
)
    requires
        0 <= column < stems.len(),
        stems[column] is None,
        0 <= row < commits.len(),
        n <= edges.len(),
        stems.len() + n <= usize::MAX,
        commits.len() <= usize::MAX,
    ensures
        ({
            let res = add_parents(stems, lines, commits, column, row, edges, n);
            forall|e: int|
                0 <= e < n ==> drawn(res.1, row, parent_row(commits, (#[trigger] edges[e]).0))
                    || stem_from(res.0, row, edges[e].0)
        }),
    decreases n,
{
    if n > 0 {
        lemma_add_parents_drawn(stems, lines, commits, column, row, edges, (n - 1) as nat);
        lemma_add_parents_effect(stems, lines, commits, column, row, edges, (n - 1) as nat);
        let prev = add_parents(stems, lines, commits, column, row, edges, (n - 1) as nat);
        let edge = edges[n - 1];
        lemma_first_stem_bounds(prev.0, edge.0, prev.0.len());
        let existing = first_stem_for(prev.0, edge.0, prev.0.len());
        lemma_last_row_bounds(commits, edge.0, commits.len());
        let res = add_parents(stems, lines, commits, column, row, edges, n);
        assert(res == add_parent(prev.0, prev.1, commits, column, row, n - 1, edge));
        // what was drawn stays drawn, and stems already there stay
        assert(prev.1.len() <= res.1.len());
        assert forall|j: int| 0 <= j < prev.1.len() implies #[trigger] res.1[j] == prev.1[j] by {}
        let at: int = if existing < 0 && (n - 1) == 0 && prev.0[column] is None {
            column
        } else {
            -1
        };
        assert forall|k: int| 0 <= k < prev.0.len() && k != at implies #[trigger] res.0[k]
            == prev.0[k] by {}
        assert(prev.0.len() <= res.0.len());
        assert forall|e: int| 0 <= e < n implies drawn(
            res.1,
            row,
            parent_row(commits, (#[trigger] edges[e]).0),
        ) || stem_from(res.0, row, edges[e].0) by {
            let pr = parent_row(commits, edges[e].0);
            if e < n - 1 {
                if drawn(prev.1, row, pr) {
                    let j = choose|j: int|
                        0 <= j < prev.1.len() && (#[trigger] prev.1[j]).source_row as int == row
                            && prev.1[j].target_row as int == pr;
                    assert(res.1[j] == prev.1[j]);
                } else {
                    let k = choose|k: int|
                        0 <= k < prev.0.len() && (#[trigger] prev.0[k]) is Some
                            && prev.0[k]->0.source_row == row && prev.0[k]->0.target_id
                            == edges[e].0;
                    assert(k != at);
                    assert(res.0[k] == prev.0[k]);
                }
            } else {
                lemma_last_row_bounds(commits, edge.0, commits.len());
                if existing >= 0 {
                    if existing != column {
                        let j = prev.1.len() as int;
                        assert(res.1[j].source_row as int == row);
                        assert(res.1[j].target_row as int == pr);
                    } else {
                        assert(prev.0[column] is Some);
                        assert(res.0[column] == prev.0[column]);
                        assert(prev.0[column]->0.source_row == row);
                    }
                } else {
                    if at == column {
                        assert(res.0[column] is Some);
                    } else {
                        assert(res.0[prev.0.len() as int] is Some);
                    }
                }
            }
        }
    }
}

proof fn lemma_last_row_unique(commits: Seq<CommitView>, p: int, n: nat)
    requires
        ids_unique(commits),
        0 <= p < n <= commits.len(),
    ensures
        last_row_of(commits, commits[p].commit_id, n) == p,
    decreases n,
{
    if n - 1 > p {
        assert(commits[p].commit_id != commits[n - 1].commit_id);
        lemma_last_row_unique(commits, p, (n - 1) as nat);
    }
}

/// After `n` rows, each parent edge of a placed row whose parent is shown is
/// drawn to the parent's row, or, while that row is still to come, a stem from
/// the row leads toward it.
proof fn lemma_layout_drawn(commits: Seq<CommitView>, n: nat)
    requires
        n <= commits.len(),
        lane_budget(commits, commits.len()) <= usize::MAX,
        ids_unique(commits),
        parents_below(commits),
    ensures
        ({
            let st = layout(commits, n);
            forall|r: int, e: int, p: int|
                0 <= r < n && 0 <= e < commits[r].parent_edges.len() && 0 <= p < commits.len()
                    && (#[trigger] commits[p]).commit_id == (
                #[trigger] commits[r].parent_edges[e]).0 ==> drawn(st.lines, r, p) || (n <= p
                    && stem_from(st.stems, r, commits[p].commit_id))
        }),
    decreases n,
{
    lemma_budget_at_least_rows(commits, commits.len());
    if n == 0 {
        return;
    }
    let row = n - 1;
    lemma_layout_drawn(commits, (n - 1) as nat);
    lemma_layout_lanes(commits, (n - 1) as nat);
    lemma_layout_within(commits, (n - 1) as nat);
    lemma_lane_budget_mono(commits, n, commits.len());
    let st = layout(commits, (n - 1) as nat);
    let c = commits[row];
    let id = c.commit_id;
    lemma_first_stem_bounds(st.stems, id, st.stems.len());
    lemma_first_free_bounds(st.stems, st.stems.len());
    let column = row_column(st.stems, id);
    let stems1 = if column == st.stems.len() {
        st.stems.push(None)
    } else {
        st.stems
    };
    let lines1 = match stems1[column] {
        Some(t) => st.lines.push(
            GraphLine {
                source_col: t.source_col as usize,
                source_row: t.source_row as usize,
                target_col: column as usize,
                target_row: row as usize,
                indirect: t.indirect,
            },
        ),
        None => st.lines,
    };
    let stems2 = stems1.update(column, None);
    let edges = c.parent_edges;
    lemma_add_parents_effect(stems2, lines1, commits, column, row, edges, edges.len());
    lemma_add_parents_drawn(stems2, lines1, commits, column, row, edges, edges.len());
    let after = add_parents(stems2, lines1, commits, column, row, edges, edges.len());
    let next = layout(commits, n);
    assert(next == layout_row(st, commits, row));
    assert(next.stems == after.0 && next.lines == after.1);
    assert forall|j: int| 0 <= j < st.lines.len() implies #[trigger] after.1[j] == st.lines[j] by {
        assert(lines1[j] == st.lines[j]);
    }
    assert forall|r: int, e: int, p: int|
        0 <= r < n && 0 <= e < commits[r].parent_edges.len() && 0 <= p < commits.len()
            && (#[trigger] commits[p]).commit_id == (#[trigger] commits[r].parent_edges[e]).0
        implies drawn(next.lines, r, p) || (n <= p && stem_from(next.stems, r, commits[p].commit_id))
    by {
        let pid = commits[p].commit_id;
        assert(r < p);
        if r == row {
            lemma_last_row_unique(commits, p, commits.len());
            assert(parent_row(commits, edges[e].0) == p);
        } else if drawn(st.lines, r, p) {
            let j = choose|j: int|
                0 <= j < st.lines.len() && (#[trigger] st.lines[j]).source_row as int == r
                    && st.lines[j].target_row as int == p;
            assert(after.1[j] == st.lines[j]);
        } else {
            let k = choose|k: int|
                0 <= k < st.stems.len() && (#[trigger] st.stems[k]) is Some
                    && st.stems[k]->0.source_row == r && st.stems[k]->0.target_id == pid;
            if p == row {
                lemma_first_stem_unique(st.stems, id, k, st.stems.len());
                assert(column == k);
                assert(stems1[column] == st.stems[k]);
                let j = st.lines.len() as int;
                assert(lines1[j].source_row as int == r);
                assert(lines1[j].target_row as int == p);
                assert(after.1[j] == lines1[j]);
            } else {
                assert(commits[row].commit_id != commits[p].commit_id);
                if k == column {
                    if first_stem_for(st.stems, id, st.stems.len()) >= 0 {
                        assert(stem_targets(st.stems[k], id));
                    }
                    assert(false);
                }
                assert(stems2[k] == st.stems[k]);
                assert(after.0[k] == stems2[k]);
            }
        }
    }
}

/// When every commit is shown once and below the commits whose parent it is,
/// every parent relation is drawn: for each parent edge of a row whose parent
/// the log shows at row `p`, some line of the graph leaves that row and ends
/// at row `p`, whatever the edge's place among the commit's parents.
pub proof fn lemma_parents_drawn(commits: Seq<CommitView>)
    requires
        lane_budget(commits, commits.len()) <= usize::MAX,
        ids_unique(commits),
        parents_below(commits),
    ensures
        forall|r: int, e: int, p: int|
            0 <= r < commits.len() && 0 <= e < commits[r].parent_edges.len() && 0 <= p
                < commits.len() && (#[trigger] commits[p]).commit_id == (
            #[trigger] commits[r].parent_edges[e]).0 ==> exists|j: int|
                0 <= j < graph_lines(commits).len() && (#[trigger] graph_lines(
                    commits,
                )[j]).source_row as int == r && graph_lines(commits)[j].target_row as int == p,
{
    lemma_layout_drawn(commits, commits.len());
    let st = layout(commits, commits.len());
    let all = graph_lines(commits);
    assert forall|j: int| 0 <= j < st.lines.len() implies #[trigger] all[j] == st.lines[j] by {}
    assert forall|r: int, e: int, p: int|
        0 <= r < commits.len() && 0 <= e < commits[r].parent_edges.len() && 0 <= p < commits.len()
            && (#[trigger] commits[p]).commit_id == (#[trigger] commits[r].parent_edges[e]).0
        implies exists|j: int|
        0 <= j < all.len() && (#[trigger] all[j]).source_row as int == r && all[j].target_row as int
            == p by {
        assert(drawn(st.lines, r, p));
        let j = choose|j: int|
            0 <= j < st.lines.len() && (#[trigger] st.lines[j]).source_row as int == r
                && st.lines[j].target_row as int == p;
        assert(all[j] == st.lines[j]);
    }
}

/// Line `l` stands for a parent edge of the commit at its first row, with the
/// edge's kind: it ends at the row of that parent, or runs past the last row
/// when the log does not show the parent.
pub open spec fn stands_for_edge(commits: Seq<CommitView>, l: GraphLine) -> bool {
    let r = l.source_row as int;
    exists|e: int|
        0 <= e < commits[r].parent_edges.len() && (#[trigger] commits[r].parent_edges[e]).1
            == l.indirect && (l.target_row < commits.len() ==> commits[l.target_row as int].commit_id
            == commits[r].parent_edges[e].0) && (l.target_row >= commits.len() ==> forall|q: int|
            0 <= q < commits.len() ==> (#[trigger] commits[q]).commit_id
                != commits[r].parent_edges[e].0)
}

/// Stem `s` stands for a parent edge of the commit at its row, with the edge's kind.
pub open spec fn stem_for_edge(commits: Seq<CommitView>, s: StemView) -> bool {
    exists|e: int|
        0 <= e < commits[s.source_row].parent_edges.len() && (
        #[trigger] commits[s.source_row].parent_edges[e]) == (s.target_id, s.indirect)
}

proof fn lemma_last_row_none(commits: Seq<CommitView>, id: Seq<char>, n: nat)
    requires
        n <= commits.len(),
        last_row_of(commits, id, n) == -1,
    ensures
        forall|q: int| 0 <= q < n ==> (#[trigger] commits[q]).commit_id != id,
    decreases n,
{
    if n > 0 {
        lemma_last_row_none(commits, id, (n - 1) as nat);
    }
}

/// What the parent edges of the commit at `row` add stands for those edges.
proof fn lemma_add_parents_edges(
    stems: Seq<Option<StemView>>,
    lines: Seq<GraphLine>,
    commits: Seq<CommitView>,
    column: int,
    row: int,
    n: nat,
)
    requires
        0 <= column < stems.len(),
        0 <= row < commits.len(),
        n <= commits[row].parent_edges.len(),
        stems.len() + n <= usize::MAX,
        commits.len() <= usize::MAX,
    ensures
        ({
            let res = add_parents(stems, lines, commits, column, row, commits[row].parent_edges, n);
            &&& forall|j: int|
                lines.len() <= j < res.1.len() ==> stands_for_edge(commits, #[trigger] res.1[j])
            &&& forall|k: int|
                0 <= k < res.0.len() && (#[trigger] res.0[k]) is Some ==> (k < stems.len()
                    && res.0[k] == stems[k]) || (res.0[k]->0.source_row == row && stem_for_edge(
                    commits,
                    res.0[k]->0,
                ))
        }),
    decreases n,
{
    let edges = commits[row].parent_edges;
    lemma_add_parents_effect(stems, lines, commits, column, row, edges, n);
    if n > 0 {
        lemma_add_parents_edges(stems, lines, commits, column, row, (n - 1) as nat);
        lemma_add_parents_effect(stems, lines, commits, column, row, edges, (n - 1) as nat);
        let prev = add_parents(stems, lines, commits, column, row, edges, (n - 1) as nat);
        let edge = edges[n - 1];
        lemma_first_stem_bounds(prev.0, edge.0, prev.0.len());
        let existing = first_stem_for(prev.0, edge.0, prev.0.len());
        lemma_last_row_bounds(commits, edge.0, commits.len());
        lemma_last_row_is(commits, edge.0, commits.len());
        let res = add_parents(stems, lines, commits, column, row, edges, n);
        assert(res == add_parent(prev.0, prev.1, commits, column, row, n - 1, edge));
        assert forall|j: int| lines.len() <= j < res.1.len() implies stands_for_edge(
            commits,
            #[trigger] res.1[j],
        ) by {
            if j < prev.1.len() {
                assert(res.1[j] == prev.1[j]);
            } else {
                let l = res.1[j];
                assert(l.source_row as int == row);
                assert(edges[n - 1] == edge);
                if l.target_row >= commits.len() {
                    lemma_last_row_none(commits, edge.0, commits.len());
                }
            }
        }
        let at: int = if existing < 0 && (n - 1) == 0 && prev.0[column] is None {
            column
        } else if existing < 0 {
            prev.0.len() as int
        } else {
            -1
        };
        assert forall|k: int|
            0 <= k < res.0.len() && (#[trigger] res.0[k]) is Some implies (k < stems.len()
                && res.0[k] == stems[k]) || (res.0[k]->0.source_row == row && stem_for_edge(
                commits,
                res.0[k]->0,
            )) by {
            if k == at {
                assert(edges[n - 1] == (res.0[k]->0.target_id, res.0[k]->0.indirect));
            } else {
                assert(res.0[k] == prev.0[k]);
            }
        }
    }
}

/// After `n` rows every line stands for a parent edge, and every stem stands
/// for a parent edge whose parent none of the rows placed so far shows.
proof fn lemma_layout_edges(commits: Seq<CommitView>, n: nat)
    requires
        n <= commits.len(),
        lane_budget(commits, commits.len()) <= usize::MAX,
        ids_unique(commits),
        parents_below(commits),
    ensures
        ({
            let st = layout(commits, n);
            &&& forall|j: int| 0 <= j < st.lines.len() ==> stands_for_edge(commits, #[trigger] st.lines[j])
            &&& forall|k: int|
                0 <= k < st.stems.len() && (#[trigger] st.stems[k]) is Some ==> {
                    &&& stem_for_edge(commits, st.stems[k]->0)
                    &&& forall|q: int| 0 <= q < n ==> (#[trigger] commits[q]).commit_id
                        != st.stems[k]->0.target_id
                }
        }),
    decreases n,
{
    lemma_budget_at_least_rows(commits, commits.len());
    if n == 0 {
        return;
    }
    let row = n - 1;
    lemma_layout_edges(commits, (n - 1) as nat);
    lemma_layout_lanes(commits, (n - 1) as nat);
    lemma_layout_within(commits, (n - 1) as nat);
    lemma_lane_budget_mono(commits, n, commits.len());
    let st = layout(commits, (n - 1) as nat);
    let c = commits[row];
    let id = c.commit_id;
    lemma_first_stem_bounds(st.stems, id, st.stems.len());
    lemma_first_free_bounds(st.stems, st.stems.len());
    let column = row_column(st.stems, id);
    let stems1 = if column == st.stems.len() {
        st.stems.push(None)
    } else {
        st.stems
    };
    let lines1 = match stems1[column] {
        Some(t) => st.lines.push(
            GraphLine {
                source_col: t.source_col as usize,
                source_row: t.source_row as usize,
                target_col: column as usize,
                target_row: row as usize,
                indirect: t.indirect,
            },
        ),
        None => st.lines,
    };
    let stems2 = stems1.update(column, None);
    let edges = c.parent_edges;
    lemma_add_parents_edges(stems2, lines1, commits, column, row, edges.len());
    lemma_add_parents_effect(stems2, lines1, commits, column, row, edges, edges.len());
    let after = add_parents(stems2, lines1, commits, column, row, edges, edges.len());
    let next = layout(commits, n);
    assert(next == layout_row(st, commits, row));
    assert(next.stems == after.0 && next.lines == after.1);
    assert forall|j: int| 0 <= j < after.1.len() implies stands_for_edge(
        commits,
        #[trigger] after.1[j],
    ) by {
        if j < lines1.len() {
            assert(after.1[j] == lines1[j]);
            if j < st.lines.len() {
                assert(lines1[j] == st.lines[j]);
            } else {
                assert(stems1[column] == st.stems[column]);
                let s = st.stems[column]->0;
                assert(stem_targets(st.stems[column], id));
                let e = choose|e: int|
                    0 <= e < commits[s.source_row].parent_edges.len() && (
                    #[trigger] commits[s.source_row].parent_edges[e]) == (s.target_id, s.indirect);
                assert(lines1[j].source_row as int == s.source_row);
                assert(commits[lines1[j].source_row as int].parent_edges[e] == (s.target_id, s.indirect));
            }
        }
    }
    assert forall|k: int| 0 <= k < after.0.len() && (#[trigger] after.0[k]) is Some implies {
        &&& stem_for_edge(commits, after.0[k]->0)
        &&& forall|q: int| 0 <= q < n ==> (#[trigger] commits[q]).commit_id != after.0[k]->0.target_id
    } by {
        let s = after.0[k]->0;
        if k < stems2.len() && after.0[k] == stems2[k] {
            assert(k != column);
            assert(stems2[k] == st.stems[k]);
            if commits[row].commit_id == s.target_id {
                lemma_first_stem_unique(st.stems, id, k, st.stems.len());
                assert(false);
            }
        } else {
            let e = choose|e: int|
                0 <= e < commits[s.source_row].parent_edges.len() && (
                #[trigger] commits[s.source_row].parent_edges[e]) == (s.target_id, s.indirect);
            assert forall|q: int| 0 <= q < n implies (#[trigger] commits[q]).commit_id != s.target_id by {
                if commits[q].commit_id == s.target_id {
                    assert(commits[q].commit_id == commits[row].parent_edges[e].0);
                }
            }
        }
    }
}

proof fn lemma_closing_edges(commits: Seq<CommitView>, stems: Seq<Option<StemView>>, n: nat)
    requires
        n <= stems.len(),
        commits.len() <= usize::MAX,
        forall|k: int|
            0 <= k < stems.len() && (#[trigger] stems[k]) is Some ==> {
                &&& 0 <= stems[k]->0.source_row < commits.len()
                &&& stem_for_edge(commits, stems[k]->0)
                &&& forall|q: int| 0 <= q < commits.len() ==> (#[trigger] commits[q]).commit_id
                    != stems[k]->0.target_id
            },
    ensures
        forall|j: int|
            0 <= j < closing_lines(stems, n, commits.len() as int).len() ==> stands_for_edge(
                commits,
                #[trigger] closing_lines(stems, n, commits.len() as int)[j],
            ),
    decreases n,
{
    if n > 0 {
        let rows = commits.len() as int;
        lemma_closing_edges(commits, stems, (n - 1) as nat);
        let prev = closing_lines(stems, (n - 1) as nat, rows);
        let cur = closing_lines(stems, n, rows);
        assert forall|j: int| 0 <= j < cur.len() implies stands_for_edge(commits, #[trigger] cur[j]) by {
            if j < prev.len() {
                assert(cur[j] == prev[j]);
            } else {
                let t = stems[n - 1]->0;
                assert(stems[n - 1] is Some);
                assert(cur[j].source_row as int == t.source_row);
                assert(cur[j].indirect == t.indirect);
                assert(cur[j].target_row as int == rows);
                let e = choose|e: int|
                    0 <= e < commits[t.source_row].parent_edges.len() && (
                    #[trigger] commits[t.source_row].parent_edges[e]) == (t.target_id, t.indirect);
                assert(commits[cur[j].source_row as int].parent_edges[e] == (t.target_id, t.indirect));
            }
        }
    }
}

/// When every commit is shown once and below the commits whose parent it is,
/// every line of the graph stands for a parent relation: it leaves a row
/// toward one of that commit's parents, drawn as that parent edge is (direct
/// or not), and ends at the parent's row, or runs past the last row when the
/// log does not show the parent.
pub proof fn lemma_lines_are_parent_edges(commits: Seq<CommitView>)
    requires
        lane_budget(commits, commits.len()) <= usize::MAX,
        ids_unique(commits),
        parents_below(commits),
    ensures
        forall|j: int|
            0 <= j < graph_lines(commits).len() ==> stands_for_edge(
                commits,
                #[trigger] graph_lines(commits)[j],
            ),
{
    lemma_budget_at_least_rows(commits, commits.len());
    lemma_layout_edges(commits, commits.len());
    lemma_layout_lanes(commits, commits.len());
    let st = layout(commits, commits.len());
    let rows = commits.len() as int;
    assert forall|k: int| 0 <= k < st.stems.len() && (#[trigger] st.stems[k]) is Some implies 0
        <= st.stems[k]->0.source_row < commits.len() by {}
    lemma_closing_edges(commits, st.stems, st.stems.len());
    let closing = closing_lines(st.stems, st.stems.len(), rows);
    let all = graph_lines(commits);
    assert forall|j: int| 0 <= j < all.len() implies stands_for_edge(commits, #[trigger] all[j]) by {
        if j < st.lines.len() {
            assert(all[j] == st.lines[j]);
        } else {
            assert(all[j] == closing[j - st.lines.len()]);
        }
    }
}

/// A stem under way in the layout.
struct Stem {
    source_col: usize,
    source_row: usize,
    target_id: String,
    indirect: bool,
}

spec fn stem_view(s: Option<Stem>) -> Option<StemView> {
    match s {
        Some(t) => Some(
            StemView {
                source_col: t.source_col as int,
                source_row: t.source_row as int,
                target_id: t.target_id@,
                indirect: t.indirect,
            },
        ),
        None => None,
    }
}

spec fn stems_view(v: Seq<Option<Stem>>) -> Seq<Option<StemView>> {
    v.map_values(|s: Option<Stem>| stem_view(s))
}

/// The first lane whose stem leads to `id`.
fn find_stem(stems: &Vec<Option<Stem>>, id: &String) -> (res: Option<usize>)
    ensures
        match res {
            Some(k) => first_stem_for(stems_view(stems@), id@, stems@.len()) == k,
            None => first_stem_for(stems_view(stems@), id@, stems@.len()) == -1,
        },
{
    let ghost sv = stems_view(stems@);
    let mut k: usize = 0;
    while k < stems.len()
        invariant
            sv == stems_view(stems@),
            k <= stems@.len(),
            first_stem_for(sv, id@, k as nat) == -1,
        decreases stems@.len() - k,
    {
        let hit = match &stems[k] {
            Some(st) => st.target_id == *id,
            None => false,
        };
        proof {
            assert(sv[k as int] == stem_view(stems@[k as int]));
        }
        if hit {
            proof {
                assert(first_stem_for(sv, id@, (k + 1) as nat) == k);
                lemma_first_stem_stable(sv, id@, (k + 1) as nat, stems@.len() as nat);
            }
            return Some(k);
        }
        k = k + 1;
    }
    None
}

/// The first free lane.
fn find_free(stems: &Vec<Option<Stem>>) -> (res: Option<usize>)
    ensures
        match res {
            Some(k) => first_free(stems_view(stems@), stems@.len()) == k,
            None => first_free(stems_view(stems@), stems@.len()) == -1,
        },
{
    let ghost sv = stems_view(stems@);
    let mut k: usize = 0;
    while k < stems.len()
        invariant
            sv == stems_view(stems@),
            k <= stems@.len(),
            first_free(sv, k as nat) == -1,
        decreases stems@.len() - k,
    {
        let free = stems[k].is_none();
        proof {
            assert(sv[k as int] == stem_view(stems@[k as int]));
        }
        if free {
            proof {
                assert(first_free(sv, (k + 1) as nat) == k);
                lemma_first_free_stable(sv, (k + 1) as nat, stems@.len() as nat);
            }
            return Some(k);
        }
        k = k + 1;
    }
    None
}

/// The row of commit `id` among `commits`, or past the last row.
fn find_parent_row(commits: &[CommitInfo], id: &String) -> (res: usize)
    ensures
        res == parent_row(commit_views(commits@), id@),
{
    let ghost cv = commit_views(commits@);
    let mut k: usize = commits.len();
    while k > 0
        invariant
            cv == commit_views(commits@),
            k <= commits@.len(),
            forall|r: int| k <= r < commits@.len() ==> cv[r].commit_id != id@,
            last_row_of(cv, id@, commits@.len() as nat) == last_row_of(cv, id@, k as nat),
        decreases k,
    {
        proof {
            assert(cv[k - 1] == commits@[k - 1]@);
        }
        if commits[k - 1].commit_id == *id {
            return k - 1;
        }
        k = k - 1;
    }
    commits.len()
}

proof fn lemma_first_stem_stable(stems: Seq<Option<StemView>>, id: Seq<char>, m: nat, n: nat)
    requires
        m <= n,
        first_stem_for(stems, id, m) >= 0,
    ensures
        first_stem_for(stems, id, n) == first_stem_for(stems, id, m),
    decreases n - m,
{
    if m < n {
        lemma_first_stem_stable(stems, id, m, (n - 1) as nat);
    }
}

proof fn lemma_first_free_stable(stems: Seq<Option<StemView>>, m: nat, n: nat)
    requires
        m <= n,
        first_free(stems, m) >= 0,
    ensures
        first_free(stems, n) == first_free(stems, m),
    decreases n - m,
{
    if m < n {
        lemma_first_free_stable(stems, m, (n - 1) as nat);
    }
}

proof fn lemma_first_stem_bounds(stems: Seq<Option<StemView>>, id: Seq<char>, n: nat)
    requires
        n <= stems.len(),
    ensures
        -1 <= first_stem_for(stems, id, n) < n,
        first_stem_for(stems, id, n) >= 0 ==> stem_targets(stems[first_stem_for(stems, id, n)], id),
    decreases n,
{
    if n > 0 {
        lemma_first_stem_bounds(stems, id, (n - 1) as nat);
    }
}

proof fn lemma_first_free_bounds(stems: Seq<Option<StemView>>, n: nat)
    requires
        n <= stems.len(),
    ensures
        -1 <= first_free(stems, n) < n,
        first_free(stems, n) >= 0 ==> stems[first_free(stems, n)] is None,
    decreases n,
{
    if n > 0 {
        lemma_first_free_bounds(stems, (n - 1) as nat);
    }
}

/// Graph and commit info canvas.
#[derive(Debug)]
pub struct GraphColumn {
    rows: Vec<GraphRow>,
    lines: Vec<GraphLine>,
    max_column: usize,
    selected_index: Option<usize>,
}

impl GraphColumn {
    /// The rows, one per commit.
    pub closed spec fn spec_rows(&self) -> Seq<GraphRow> {
        self.rows@
    }

    /// The lines between rows.
    pub closed spec fn spec_lines(&self) -> Seq<GraphLine> {
        self.lines@
    }

    /// The highest lane in use.
    pub closed spec fn spec_max_column(&self) -> usize {
        self.max_column
    }

    /// The highlighted row.
    pub closed spec fn spec_selected(&self) -> Option<usize> {
        self.selected_index
    }

    pub fn new() -> (res: GraphColumn)
        ensures
            res.spec_rows().len() == 0,
            res.spec_lines().len() == 0,
            res.spec_max_column() == 0,
            res.spec_selected() is None,
    {
        GraphColumn { rows: Vec::new(), lines: Vec::new(), max_column: 0, selected_index: None }
    }

    /// Highlights a row, or none.
    pub fn set_selected(&mut self, index: Option<usize>)
        ensures
            final(self).spec_selected() == index,
            final(self).spec_rows() == old(self).spec_rows(),
            final(self).spec_lines() == old(self).spec_lines(),
            final(self).spec_max_column() == old(self).spec_max_column(),
    {
        self.selected_index = index;
    }

    /// The rows, one per commit.
    pub fn rows(&self) -> (res: &Vec<GraphRow>)
        ensures
            res@ == self.spec_rows(),
    {
        &self.rows
    }

    /// The lines between rows.
    pub fn lines(&self) -> (res: &Vec<GraphLine>)
        ensures
            res@ == self.spec_lines(),
    {
        &self.lines
    }

    /// The highest lane in use.
    pub fn max_column(&self) -> (res: usize)
        ensures
            res == self.spec_max_column(),
    {
        self.max_column
    }

    /// The highlighted row.
    pub fn selected_index(&self) -> (res: Option<usize>)
        ensures
            res == self.spec_selected(),
    {
        self.selected_index
    }

    /// Computes the graph layout of `commits`, shown top to bottom: each commit
    /// takes the lane of the stem that leads to it, else the first free lane,
    /// else a new one; stems start toward its parents; a stem becomes a line
    /// when its commit is placed, and stems still open at the end run past the
    /// last row.
    pub fn compute(&mut self, commits: &[CommitInfo])
        ensures
            final(self).spec_selected() == old(self).spec_selected(),
            final(self).spec_rows().len() == commits@.len(),
            forall|r: int|
                0 <= r < commits@.len() ==> #[trigger] final(self).spec_rows()[r]@ == row_for(
                    commits@[r]@,
                    layout(commit_views(commits@), commits@.len()).columns[r],
                ),
            final(self).spec_lines() == graph_lines(commit_views(commits@)),
            final(self).spec_max_column() == layout(
                commit_views(commits@),
                commits@.len(),
            ).max_column,
            forall|r: int|
                0 <= r < commits@.len() ==> {
                    let row = (#[trigger] final(self).spec_rows()[r])@;
                    let c = commits@[r]@;
                    &&& row.bookmarks == c.bookmarks
                    &&& row.author == c.author
                    &&& row.is_working_copy == c.is_working_copy
                    &&& row.is_immutable == c.is_immutable
                    &&& row.change_id.len() == (if c.change_id.len() < 8 {
                        c.change_id.len()
                    } else {
                        8
                    })
                    &&& row.change_id.is_prefix_of(c.change_id)
                    &&& (c.file_stats matches Some(st) ==> row.file_count == Some(st.file_count)
                        && row.lines_added == Some(st.lines_added) && row.lines_removed == Some(
                        st.lines_removed,
                    ))
                    &&& (c.file_stats is None ==> row.file_count is None && row.lines_added is None
                        && row.lines_removed is None)
                },
    {
        let ghost cv = commit_views(commits@);
        let mut rows: Vec<GraphRow> = Vec::new();
        let mut lines: Vec<GraphLine> = Vec::new();
        let mut max_column: usize = 0;

        let num_rows = commits.len();
        let mut stems: Vec<Option<Stem>> = Vec::new();
        let mut row_idx: usize = 0;
        proof {
            assert(stems_view(stems@) =~= layout(cv, 0).stems);
            assert(lines@ =~= layout(cv, 0).lines);
        }
        while row_idx < num_rows
            invariant
                cv == commit_views(commits@),
                num_rows == commits@.len(),
                row_idx <= num_rows,
                stems_view(stems@) == layout(cv, row_idx as nat).stems,
                lines@ == layout(cv, row_idx as nat).lines,
                max_column == layout(cv, row_idx as nat).max_column,
                layout(cv, row_idx as nat).columns.len() == row_idx,
                rows@.len() == row_idx,
                forall|r: int|
                    0 <= r < row_idx ==> #[trigger] rows@[r]@ == row_for(
                        cv[r],
                        layout(cv, row_idx as nat).columns[r],
                    ),
            decreases num_rows - row_idx,
        {
            let ghost st = layout(cv, row_idx as nat);
            let ghost c = cv[row_idx as int];
            let commit = &commits[row_idx];
            proof {
                assert(c == commit@);
                lemma_first_stem_bounds(st.stems, c.commit_id, st.stems.len());
                lemma_first_free_bounds(st.stems, st.stems.len());
            }
            // The lane of this commit.
            let column = match find_stem(&stems, &commit.commit_id) {
                Some(slot) => slot,
                None => match find_free(&stems) {
                    Some(slot) => slot,
                    None => {
                        stems.push(None);
                        proof {
                            assert(stems_view(stems@) =~= st.stems.push(None));
                        }
                        stems.len() - 1
                    },
                },
            };
            let ghost stems1 = if column == st.stems.len() {
                st.stems.push(None)
            } else {
                st.stems
            };
            assert(column == row_column(st.stems, c.commit_id));
            assert(stems_view(stems@) == stems1);
            assert(column < stems@.len());

            // The stem that led here becomes a line.
            let ghost lines1 = match stems1[column as int] {
                Some(t) => st.lines.push(
                    GraphLine {
                        source_col: t.source_col as usize,
                        source_row: t.source_row as usize,
                        target_col: column,
                        target_row: row_idx,
                        indirect: t.indirect,
                    },
                ),
                None => st.lines,
            };
            proof {
                assert(stems1[column as int] == stem_view(stems@[column as int]));
            }
            match &stems[column] {
                Some(terminated) => {
                    lines.push(
                        GraphLine {
                            source_col: terminated.source_col,
                            source_row: terminated.source_row,
                            target_col: column,
                            target_row: row_idx,
                            indirect: terminated.indirect,
                        },
                    );
                },
                None => {},
            }
            assert(lines@ == lines1);
            stems.set(column, None);
            proof {
                assert(stems_view(stems@) =~= stems1.update(column as int, None));
            }

            // Stems and lines toward the parents.
            let edges = &commit.parent_edges;
            let mut i: usize = 0;
            while i < edges.len()
                invariant
                    cv == commit_views(commits@),
                    num_rows == commits@.len(),
                    row_idx < num_rows,
                    c == cv[row_idx as int],
                    edges@ == commits@[row_idx as int].parent_edges@,
                    c.parent_edges == edges@.map_values(
                        |e: crate::repo::ParentEdge| (e.commit_id@, e.is_indirect),
                    ),
                    i <= edges@.len(),
                    column < stems@.len(),
                    (stems_view(stems@), lines@) == add_parents(
                        stems1.update(column as int, None),
                        lines1,
                        cv,
                        column as int,
                        row_idx as int,
                        c.parent_edges,
                        i as nat,
                    ),
                decreases edges@.len() - i,
            {
                let edge = &edges[i];
                let ghost sv = stems_view(stems@);
                let ghost ev = c.parent_edges[i as int];
                proof {
                    assert(ev == (edge.commit_id@, edge.is_indirect));
                    lemma_first_stem_bounds(sv, ev.0, sv.len());
                }
                match find_stem(&stems, &edge.commit_id) {
                    Some(stem_col) => {
                        if stem_col != column {
                            let parent_row = find_parent_row(commits, &edge.commit_id);
                            lines.push(
                                GraphLine {
                                    source_col: column,
                                    source_row: row_idx,
                                    target_col: stem_col,
                                    target_row: parent_row,
                                    indirect: edge.is_indirect,
                                },
                            );
                        }
                    },
                    None => {
                        let first_here = i == 0 && stems[column].is_none();
                        proof {
                            assert(sv[column as int] == stem_view(stems@[column as int]));
                        }
                        let new_stem = Stem {
                            source_col: column,
                            source_row: row_idx,
                            target_id: edge.commit_id.clone(),
                            indirect: edge.is_indirect,
                        };
                        if first_here {
                            stems.set(column, Some(new_stem));
                        } else {
                            stems.push(Some(new_stem));
                        }
                        proof {
                            let stem = StemView {
                                source_col: column as int,
                                source_row: row_idx as int,
                                target_id: ev.0,
                                indirect: ev.1,
                            };
                            if first_here {
                                assert(stems_view(stems@) =~= sv.update(column as int, Some(stem)));
                            } else {
                                assert(stems_view(stems@) =~= sv.push(Some(stem)));
                            }
                        }
                    },
                }
                i = i + 1;
            }

            // The highest lane in use.
            let ghost after = add_parents(
                stems1.update(column as int, None),
                lines1,
                cv,
                column as int,
                row_idx as int,
                c.parent_edges,
                c.parent_edges.len(),
            );
            assert(c.parent_edges.len() == edges@.len());
            if column > max_column {
                max_column = column;
            }
            let ghost m1 = max_column as int;
            let mut k: usize = 0;
            let mut hi: Option<usize> = None;
            while k < stems.len()
                invariant
                    k <= stems@.len(),
                    stems_view(stems@) == after.0,
                    match hi {
                        Some(h) => highest_stem(after.0, k as nat) == h,
                        None => highest_stem(after.0, k as nat) == -1,
                    },
                decreases stems@.len() - k,
            {
                proof {
                    assert(after.0[k as int] == stem_view(stems@[k as int]));
                }
                if stems[k].is_some() {
                    hi = Some(k);
                }
                k = k + 1;
            }
            match hi {
                Some(h) => {
                    if h > max_column {
                        max_column = h;
                    }
                },
                None => {},
            }

            // The row itself.
            let row = GraphRow {
                column,
                is_working_copy: commit.is_working_copy,
                is_immutable: commit.is_immutable,
                change_id: take_chars(commit.change_id.as_str(), 8),
                description: first_line(commit.description.as_str()),
                author: commit.author.clone(),
                timestamp: commit.timestamp.format("%Y-%m-%d %H:%M"),
                bookmarks: clone_strings(&commit.bookmarks),
                file_count: match commit.file_stats {
                    Some(s) => Some(s.file_count),
                    None => None,
                },
                lines_added: match commit.file_stats {
                    Some(s) => Some(s.lines_added),
                    None => None,
                },
                lines_removed: match commit.file_stats {
                    Some(s) => Some(s.lines_removed),
                    None => None,
                },
            };
            proof {
                let want = row_for(c, column as int);
                assert(row@.column == want.column);
                assert(row@.change_id == want.change_id);
                assert(row@.description == want.description);
                assert(row@.author == want.author);
                assert(row@.timestamp == want.timestamp);
                assert(row@.bookmarks == want.bookmarks);
                assert(row@.file_count == want.file_count);
                assert(row@ == want);
            }
            let ghost row_view = row@;
            let ghost rows_before = rows@;
            rows.push(row);
            proof {
                assert(rows@ == rows_before.push(rows@[row_idx as int]));
                assert(rows@[row_idx as int]@ == row_view);
                assert(row_view == row_for(c, column as int));
                let next = layout(cv, (row_idx + 1) as nat);
                assert(next == layout_row(st, cv, row_idx as int));
                assert(next.columns == st.columns.push(column as int));
                assert forall|r: int| 0 <= r < row_idx + 1 implies #[trigger] rows@[r]@
                    == row_for(cv[r], next.columns[r]) by {
                    if r < row_idx {
                        assert(next.columns[r] == st.columns[r]);
                        assert(rows@[r] == rows_before[r]);
                    } else {
                        assert(next.columns[r] == column as int);
                    }
                }
            }
            row_idx = row_idx + 1;
        }

        // Lines for the stems that run past the last row.
        let ghost fin = layout(cv, num_rows as nat);
        let ghost base = lines@;
        let mut col: usize = 0;
        while col < stems.len()
            invariant
                col <= stems@.len(),
                stems_view(stems@) == fin.stems,
                lines@ == base + closing_lines(fin.stems, col as nat, num_rows as int),
            decreases stems@.len() - col,
        {
            proof {
                assert(fin.stems[col as int] == stem_view(stems@[col as int]));
            }
            match &stems[col] {
                Some(stem) => {
                    lines.push(
                        GraphLine {
                            source_col: stem.source_col,
                            source_row: stem.source_row,
                            target_col: col,
                            target_row: num_rows,
                            indirect: stem.indirect,
                        },
                    );
                    proof {
                        assert(lines@ =~= base + closing_lines(
                            fin.stems,
                            (col + 1) as nat,
                            num_rows as int,
                        ));
                    }
                },
                None => {},
            }
            col = col + 1;
        }
        self.rows = rows;
        self.lines = lines;
        self.max_column = max_column;
    }
}


/// The description text drawn in a row that has room for `max_chars`
/// characters: the placeholder for an empty description; else the description,
/// cut to `max_chars - 3` characters followed by `...` when it is longer and
/// the room is more than three characters.
pub open spec fn drawn_description(description: Seq<char>, max_chars: int) -> Seq<char> {
    if description.len() == 0 {
        "(no description)"@
    } else if description.len() > max_chars && max_chars > 3 {
        description.take(max_chars - 3) + "..."@
    } else {
        description
    }
}

/// The description drawn in a row, and whether it is the placeholder
/// (which is drawn in the secondary text color).
pub fn row_description(description: &str, max_chars: usize) -> (res: (String, bool))
    ensures
        res.0@ == drawn_description(description@, max_chars as int),
        res.1 == (description@.len() == 0),
{
    if description.is_empty() {
        return (String::from_str("(no description)"), true);
    }
    let char_count = description.unicode_len();
    if char_count > max_chars && max_chars > 3 {
        let head = take_chars(description, max_chars - 3);
        (head.concat("..."), false)
    } else {
        (description.to_owned(), false)
    }
}

/// Texts with `", "` between them.
pub open spec fn joined(items: Seq<Seq<char>>) -> Seq<char>
    decreases items.len(),
{
    if items.len() == 0 {
        Seq::empty()
    } else if items.len() == 1 {
        items[0]
    } else {
        joined(items.drop_last()) + ", "@ + items.last()
    }
}

/// The bookmarks of a row, as its first line shows them: their names
/// separated by commas.
pub fn bookmark_list(bookmarks: &Vec<String>) -> (res: String)
    ensures
        res@ == joined(texts(bookmarks@)),
{
    let mut res = String::new();
    let mut i: usize = 0;
    while i < bookmarks.len()
        invariant
            i <= bookmarks@.len(),
            res@ == joined(texts(bookmarks@).take(i as int)),
        decreases bookmarks@.len() - i,
    {
        let ghost prev = texts(bookmarks@).take(i as int);
        let ghost next = texts(bookmarks@).take(i + 1);
        proof {
            assert(next.drop_last() =~= prev);
            assert(next.last() == bookmarks@[i as int]@);
        }
        if i > 0 {
            res = res.concat(", ");
        } else {
            proof {
                assert(prev =~= Seq::<Seq<char>>::empty());
                assert(res@ =~= Seq::<char>::empty());
            }
        }
        res = res.concat(bookmarks[i].as_str());
        proof {
            if i == 0 {
                assert(res@ =~= next[0]);
            }
        }
        i = i + 1;
    }
    proof {
        assert(texts(bookmarks@).take(bookmarks@.len() as int) =~= texts(bookmarks@));
    }
    res
}

/// The number of files a row's commit changes, as the row shows it.
pub open spec fn file_count_text(n: nat) -> Seq<char> {
    decimal(n) + if n == 1 {
        " file"@
    } else {
        " files"@
    }
}

/// The label of a row's file count: `1 file`, `2 files`.
pub fn file_count_label(n: usize) -> (res: String)
    ensures
        res@ == file_count_text(n as nat),
{
    let digits = decimal_string(n);
    if n == 1 {
        digits.concat(" file")
    } else {
        digits.concat(" files")
    }
}

} // verus!
