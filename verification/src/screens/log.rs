//! The commit log screen: the commits, the selected one, and their graph.

use vstd::prelude::*;

use crate::components::graph::{graph_lines, layout, row_for, GraphColumn};
use crate::repo::{commit_views, CommitInfo, CommitView, FileStats};
use crate::text::{spec_lines, split_lines};

verus! {

/// The commit log screen showing the list of commits.
#[derive(Debug)]
pub struct LogScreen {
    commits: Vec<CommitInfo>,
    selected_index: Option<usize>,
    graph: GraphColumn,
}

/// The commit that a selection designates, if it is within the list.
pub open spec fn selected_of(commits: Seq<CommitView>, selected: Option<usize>) -> Option<CommitView> {
    match selected {
        Some(i) => if i < commits.len() {
            Some(commits[i as int])
        } else {
            None
        },
        None => None,
    }
}

/// The graph shows `commits`: one row per commit in the layout's lanes, with
/// the layout's lines and highest lane.
pub open spec fn graph_shows(g: GraphColumn, commits: Seq<CommitInfo>) -> bool {
    &&& g.spec_rows().len() == commits.len()
    &&& forall|r: int|
        0 <= r < commits.len() ==> #[trigger] g.spec_rows()[r]@ == row_for(
            commits[r]@,
            layout(commit_views(commits), commits.len()).columns[r],
        )
    &&& g.spec_lines() == graph_lines(commit_views(commits))
    &&& g.spec_max_column() == layout(commit_views(commits), commits.len()).max_column
}

impl LogScreen {
    /// The commits, newest first.
    pub closed spec fn spec_commits(&self) -> Seq<CommitInfo> {
        self.commits@
    }

    /// The selected position.
    pub closed spec fn spec_selected(&self) -> Option<usize> {
        self.selected_index
    }

    /// The graph of the commits.
    pub closed spec fn spec_graph(&self) -> GraphColumn {
        self.graph
    }

    pub fn new() -> (res: LogScreen)
        ensures
            res.spec_commits().len() == 0,
            res.spec_selected() is None,
            res.spec_graph().spec_rows().len() == 0,
    {
        LogScreen { commits: Vec::new(), selected_index: None, graph: GraphColumn::new() }
    }

    /// Shows a new list of commits, laid out as a graph. The first commit is
    /// selected when nothing was; an existing selection is kept as it is.
    pub fn set_commits(&mut self, commits: Vec<CommitInfo>)
        ensures
            final(self).spec_commits() == commits@,
            graph_shows(final(self).spec_graph(), commits@),
            final(self).spec_selected() == (if commits@.len() > 0 && old(self).spec_selected() is None {
                Some(0usize)
            } else {
                old(self).spec_selected()
            }),
    {
        self.graph.compute(commits.as_slice());
        self.commits = commits;
        if self.commits.len() > 0 && self.selected_index.is_none() {
            self.selected_index = Some(0);
        }
    }

    /// The selected commit, if the selection is within the list.
    pub fn selected_commit(&self) -> (res: Option<&CommitInfo>)
        ensures
            match res {
                Some(c) => selected_of(commit_views(self.spec_commits()), self.spec_selected())
                    == Some(c@),
                None => selected_of(commit_views(self.spec_commits()), self.spec_selected()) is None,
            },
    {
        match self.selected_index {
            Some(i) => if i < self.commits.len() {
                Some(&self.commits[i])
            } else {
                None
            },
            None => None,
        }
    }

    /// Selects the commit at `index`, when there is one.
    pub fn select(&mut self, index: usize)
        ensures
            final(self).spec_commits() == old(self).spec_commits(),
            final(self).spec_graph() == old(self).spec_graph(),
            final(self).spec_selected() == (if index < old(self).spec_commits().len() {
                Some(index)
            } else {
                old(self).spec_selected()
            }),
    {
        if index < self.commits.len() {
            self.selected_index = Some(index);
        }
    }

    /// The commits.
    pub fn commits(&self) -> (res: &Vec<CommitInfo>)
        ensures
            res@ == self.spec_commits(),
    {
        &self.commits
    }

    /// The selected position.
    pub fn selected_index(&self) -> (res: Option<usize>)
        ensures
            res == self.spec_selected(),
    {
        self.selected_index
    }

    /// The graph of the commits.
    pub fn graph(&self) -> (res: &GraphColumn)
        ensures
            *res == self.spec_graph(),
    {
        &self.graph
    }

    /// Records the line statistics of commits: each commit named in `stats`
    /// takes the statistics of the last entry that names it, the others keep
    /// theirs; the graph is laid out again to show them.
    pub fn update_stats(&mut self, stats: Vec<(String, FileStats)>)
        ensures
            final(self).spec_selected() == old(self).spec_selected(),
            final(self).spec_commits().len() == old(self).spec_commits().len(),
            forall|r: int|
                0 <= r < old(self).spec_commits().len() ==> (#[trigger] final(self).spec_commits()[r])@ == (CommitView {
                    file_stats: stats_for(stats@, old(self).spec_commits()[r].commit_id@, old(self).spec_commits()[r]@.file_stats),
                    ..old(self).spec_commits()[r]@
                }),
            graph_shows(final(self).spec_graph(), final(self).spec_commits()),
    {
        let mut commits: Vec<CommitInfo> = Vec::new();
        std::mem::swap(&mut commits, &mut self.commits);
        let ghost orig = commits@;
        let mut i: usize = 0;
        while i < commits.len()
            invariant
                i <= commits@.len(),
                commits@.len() == orig.len(),
                forall|r: int|
                    0 <= r < orig.len() ==> (#[trigger] commits@[r])@ == if r < i {
                        CommitView {
                            file_stats: stats_for(stats@, orig[r].commit_id@, orig[r]@.file_stats),
                            ..orig[r]@
                        }
                    } else {
                        orig[r]@
                    },
            decreases orig.len() - i,
        {
            let found = lookup_stats(&stats, &commits[i].commit_id);
            let mut c = commits.remove(i);
            match found {
                Some(s) => {
                    c.file_stats = Some(s);
                },
                None => {},
            }
            commits.insert(i, c);
            proof {
                assert forall|r: int| 0 <= r < orig.len() implies (#[trigger] commits@[r])@ == if r
                    < i + 1 {
                    CommitView {
                        file_stats: stats_for(stats@, orig[r].commit_id@, orig[r]@.file_stats),
                        ..orig[r]@
                    }
                } else {
                    orig[r]@
                } by {
                    if r == i {
                        assert(commits@[r] == c);
                    }
                }
            }
            i = i + 1;
        }
        self.graph.compute(commits.as_slice());
        self.commits = commits;
        proof {
            assert forall|r: int| 0 <= r < orig.len() implies (#[trigger] self.commits@[r])@
                == (CommitView {
                file_stats: stats_for(stats@, orig[r].commit_id@, orig[r]@.file_stats),
                ..orig[r]@
            }) by {}
        }
    }
}

/// The statistics that `stats` records for `id`: those of its last entry for
/// `id`, or `current` when it has none.
pub open spec fn stats_for(stats: Seq<(String, FileStats)>, id: Seq<char>, current: Option<
    FileStats,
>) -> Option<FileStats>
    decreases stats.len(),
{
    if stats.len() == 0 {
        current
    } else if stats.last().0@ == id {
        Some(stats.last().1)
    } else {
        stats_for(stats.drop_last(), id, current)
    }
}

/// The statistics of the last entry of `stats` for `id`.
fn lookup_stats(stats: &Vec<(String, FileStats)>, id: &String) -> (res: Option<FileStats>)
    ensures
        forall|current: Option<FileStats>|
            #[trigger] stats_for(stats@, id@, current) == match res {
                Some(s) => Some(s),
                None => current,
            },
{
    let mut k: usize = stats.len();
    proof {
        assert(stats@.take(stats@.len() as int) =~= stats@);
    }
    while k > 0
        invariant
            k <= stats@.len(),
            forall|current: Option<FileStats>|
                #[trigger] stats_for(stats@, id@, current) == stats_for(
                    stats@.take(k as int),
                    id@,
                    current,
                ),
        decreases k,
    {
        let ghost pre = stats@.take(k as int);
        proof {
            assert(pre.drop_last() =~= stats@.take(k - 1));
            assert(pre.last() == stats@[k - 1]);
        }
        if stats[k - 1].0 == *id {
            return Some(stats[k - 1].1);
        }
        k = k - 1;
    }
    proof {
        assert(stats@.take(0) =~= Seq::<(String, FileStats)>::empty());
    }
    None
}


/// The title of a commit row: the first line of the description, or the
/// placeholder when the description has no line at all.
pub open spec fn row_title(description: Seq<char>) -> Seq<char> {
    if spec_lines(description).len() > 0 {
        spec_lines(description)[0]
    } else {
        "(no description)"@
    }
}

/// The title of a commit row.
pub fn commit_row_title(description: &str) -> (res: String)
    ensures
        res@ == row_title(description@),
{
    let lines = split_lines(description);
    if lines.len() > 0 {
        proof {
            assert(crate::repo::texts(lines@)[0] == lines@[0]@);
        }
        lines[0].clone()
    } else {
        String::from_str("(no description)")
    }
}

/// Whether a commit row shows its number of parents: only for merges.
pub fn shows_parent_count(commit: &CommitInfo) -> (res: bool)
    ensures
        res == (commit.parent_ids@.len() > 1),
{
    commit.parent_ids.len() > 1
}

} // verus!
