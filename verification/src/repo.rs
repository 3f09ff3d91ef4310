use vstd::prelude::*;

use crate::timestamp::Timestamp;

verus! {

/// Kind of file change.
#[derive(Debug, Clone, Copy, PartialEq, Eq, Structural)]
pub enum ChangeKind {
    Added,
    Modified,
    Deleted,
}

/// Information about a changed file.
#[derive(Debug)]
pub struct FileChange {
    pub path: String,
    pub kind: ChangeKind,
    pub has_conflict: bool,
}

/// A line in a diff.
#[derive(Debug)]
pub enum DiffLine {
    Context(String),
    Added(String),
    Removed(String),
    Hunk { old_start: u32, old_count: u32, new_start: u32, new_count: u32 },
}

/// The mathematical content of a diff line: its kind and its text.
pub enum DiffLineView {
    Context(Seq<char>),
    Added(Seq<char>),
    Removed(Seq<char>),
    Hunk { old_start: u32, old_count: u32, new_start: u32, new_count: u32 },
}

impl View for DiffLine {
    type V = DiffLineView;

    open spec fn view(&self) -> DiffLineView {
        match self {
            DiffLine::Context(s) => DiffLineView::Context(s@),
            DiffLine::Added(s) => DiffLineView::Added(s@),
            DiffLine::Removed(s) => DiffLineView::Removed(s@),
            DiffLine::Hunk { old_start, old_count, new_start, new_count } => DiffLineView::Hunk {
                old_start: *old_start,
                old_count: *old_count,
                new_start: *new_start,
                new_count: *new_count,
            },
        }
    }
}

/// A file's diff content.
#[derive(Debug)]
pub struct FileDiff {
    pub path: String,
    pub kind: ChangeKind,
    pub lines: Vec<DiffLine>,
}

/// The texts of a sequence of lines.
pub open spec fn texts(lines: Seq<String>) -> Seq<Seq<char>> {
    lines.map_values(|s: String| s@)
}

/// The views of a sequence of diff lines.
pub open spec fn diff_views(lines: Seq<DiffLine>) -> Seq<DiffLineView> {
    lines.map_values(|l: DiffLine| l@)
}


/// An edge from a commit to one of its parents in the displayed log.
#[derive(Debug)]
pub struct ParentEdge {
    pub commit_id: String,
    /// The parent is reached through revisions that the log leaves out.
    pub is_indirect: bool,
}

/// Line statistics of a commit.
#[derive(Debug, Clone, Copy, PartialEq, Eq, Structural)]
pub struct FileStats {
    pub file_count: usize,
    pub lines_added: usize,
    pub lines_removed: usize,
}

/// Information about a single commit for display.
#[derive(Debug)]
pub struct CommitInfo {
    pub commit_id: String,
    pub change_id: String,
    pub description: String,
    pub author: String,
    pub timestamp: Timestamp,
    pub parent_ids: Vec<String>,
    pub parent_edges: Vec<ParentEdge>,
    pub is_working_copy: bool,
    pub is_immutable: bool,
    pub bookmarks: Vec<String>,
    pub file_stats: Option<FileStats>,
}

impl Clone for ParentEdge {
    fn clone(&self) -> (res: Self)
        ensures
            res == *self,
    {
        ParentEdge { commit_id: self.commit_id.clone(), is_indirect: self.is_indirect }
    }
}

/// A copy of a list of parent edges.
pub fn clone_edges(v: &Vec<ParentEdge>) -> (res: Vec<ParentEdge>)
    ensures
        res@ == v@,
{
    let mut res: Vec<ParentEdge> = Vec::new();
    let mut i: usize = 0;
    while i < v.len()
        invariant
            i <= v@.len(),
            res@ == v@.take(i as int),
        decreases v@.len() - i,
    {
        res.push(v[i].clone());
        proof {
            assert(res@ =~= v@.take(i + 1));
        }
        i = i + 1;
    }
    proof {
        assert(v@.take(v@.len() as int) =~= v@);
    }
    res
}

/// A copy of a list of strings.
pub fn clone_strings(v: &Vec<String>) -> (res: Vec<String>)
    ensures
        res@ == v@,
{
    let mut res: Vec<String> = Vec::new();
    let mut i: usize = 0;
    while i < v.len()
        invariant
            i <= v@.len(),
            res@ == v@.take(i as int),
        decreases v@.len() - i,
    {
        res.push(v[i].clone());
        proof {
            assert(res@ =~= v@.take(i + 1));
        }
        i = i + 1;
    }
    proof {
        assert(v@.take(v@.len() as int) =~= v@);
    }
    res
}

/// The content of a commit's information, by value.
pub struct CommitView {
    pub commit_id: Seq<char>,
    pub change_id: Seq<char>,
    pub description: Seq<char>,
    pub author: Seq<char>,
    pub timestamp: Timestamp,
    pub parent_ids: Seq<Seq<char>>,
    pub parent_edges: Seq<(Seq<char>, bool)>,
    pub is_working_copy: bool,
    pub is_immutable: bool,
    pub bookmarks: Seq<Seq<char>>,
    pub file_stats: Option<FileStats>,
}

impl View for CommitInfo {
    type V = CommitView;

    open spec fn view(&self) -> CommitView {
        CommitView {
            commit_id: self.commit_id@,
            change_id: self.change_id@,
            description: self.description@,
            author: self.author@,
            timestamp: self.timestamp,
            parent_ids: texts(self.parent_ids@),
            parent_edges: self.parent_edges@.map_values(|e: ParentEdge| (e.commit_id@, e.is_indirect)),
            is_working_copy: self.is_working_copy,
            is_immutable: self.is_immutable,
            bookmarks: texts(self.bookmarks@),
            file_stats: self.file_stats,
        }
    }
}

/// The views of a sequence of commits.
pub open spec fn commit_views(commits: Seq<CommitInfo>) -> Seq<CommitView> {
    commits.map_values(|c: CommitInfo| c@)
}

impl Clone for CommitInfo {
    fn clone(&self) -> (res: Self)
        ensures
            res@ == self@,
    {
        let res = CommitInfo {
            commit_id: self.commit_id.clone(),
            change_id: self.change_id.clone(),
            description: self.description.clone(),
            author: self.author.clone(),
            timestamp: self.timestamp,
            parent_ids: clone_strings(&self.parent_ids),
            parent_edges: clone_edges(&self.parent_edges),
            is_working_copy: self.is_working_copy,
            is_immutable: self.is_immutable,
            bookmarks: clone_strings(&self.bookmarks),
            file_stats: self.file_stats,
        };
        proof {
            assert(res@.parent_edges =~= self@.parent_edges);
        }
        res
    }
}

impl Clone for FileChange {
    fn clone(&self) -> (res: Self)
        ensures
            res == *self,
    {
        FileChange { path: self.path.clone(), kind: self.kind, has_conflict: self.has_conflict }
    }
}

} // verus!
