//! Errors of the repository worker, one type per command.

use vstd::prelude::*;

use crate::error::DojoError;

verus! {

/// Error loading/refreshing a repository.
#[derive(Debug, Clone)]
pub enum RefreshError {
    ChannelClosed,
    /// An error of jj, by its message.
    Jj(String),
}

/// Error loading files for a commit.
#[derive(Debug, Clone)]
pub enum FilesError {
    RepoNotLoaded,
    ChannelClosed,
    /// An error of jj, by its message.
    Jj(String),
}

/// Error loading diffs for a commit.
#[derive(Debug, Clone)]
pub enum DiffsError {
    RepoNotLoaded,
    ChannelClosed,
    /// An error of jj, by its message.
    Jj(String),
}

/// Error loading stats for commits.
#[derive(Debug, Clone)]
pub enum StatsError {
    RepoNotLoaded,
    ChannelClosed,
}

/// Error updating a commit description.
#[derive(Debug, Clone)]
pub enum UpdateDescriptionError {
    ChannelClosed,
    /// An error of jj, by its message.
    Jj(String),
}

/// The message of a closed worker channel.
pub open spec fn channel_closed_text() -> Seq<char> {
    "Worker channel closed"@
}

/// The message of a command that needs a loaded repository.
pub open spec fn repo_not_loaded_text() -> Seq<char> {
    "Repository not loaded"@
}

impl RefreshError {
    /// The error's message.
    pub fn message(&self) -> (res: String)
        ensures
            res@ == match self {
                RefreshError::ChannelClosed => channel_closed_text(),
                RefreshError::Jj(m) => m@,
            },
    {
        match self {
            RefreshError::ChannelClosed => String::from_str("Worker channel closed"),
            RefreshError::Jj(m) => m.clone(),
        }
    }
}

impl FilesError {
    /// The error's message.
    pub fn message(&self) -> (res: String)
        ensures
            res@ == match self {
                FilesError::RepoNotLoaded => repo_not_loaded_text(),
                FilesError::ChannelClosed => channel_closed_text(),
                FilesError::Jj(m) => m@,
            },
    {
        match self {
            FilesError::RepoNotLoaded => String::from_str("Repository not loaded"),
            FilesError::ChannelClosed => String::from_str("Worker channel closed"),
            FilesError::Jj(m) => m.clone(),
        }
    }
}

impl DiffsError {
    /// The error's message.
    pub fn message(&self) -> (res: String)
        ensures
            res@ == match self {
                DiffsError::RepoNotLoaded => repo_not_loaded_text(),
                DiffsError::ChannelClosed => channel_closed_text(),
                DiffsError::Jj(m) => m@,
            },
    {
        match self {
            DiffsError::RepoNotLoaded => String::from_str("Repository not loaded"),
            DiffsError::ChannelClosed => String::from_str("Worker channel closed"),
            DiffsError::Jj(m) => m.clone(),
        }
    }
}

impl StatsError {
    /// The error's message.
    pub fn message(&self) -> (res: String)
        ensures
            res@ == match self {
                StatsError::RepoNotLoaded => repo_not_loaded_text(),
                StatsError::ChannelClosed => channel_closed_text(),
            },
    {
        match self {
            StatsError::RepoNotLoaded => String::from_str("Repository not loaded"),
            StatsError::ChannelClosed => String::from_str("Worker channel closed"),
        }
    }
}

impl UpdateDescriptionError {
    /// The error's message.
    pub fn message(&self) -> (res: String)
        ensures
            res@ == match self {
                UpdateDescriptionError::ChannelClosed => channel_closed_text(),
                UpdateDescriptionError::Jj(m) => m@,
            },
    {
        match self {
            UpdateDescriptionError::ChannelClosed => String::from_str("Worker channel closed"),
            UpdateDescriptionError::Jj(m) => m.clone(),
        }
    }
}

/// The error a repository shows when the worker could not load it: a
/// failure to load commits, with the worker's message.
pub fn refresh_failure(e: &RefreshError) -> (res: DojoError)
    ensures
        res matches DojoError::CommitLoad(m) && m@ == match e {
            RefreshError::ChannelClosed => channel_closed_text(),
            RefreshError::Jj(t) => t@,
        },
{
    DojoError::CommitLoad(e.message())
}

/// The error a repository shows when the worker could not load the files of
/// a commit: the repository is not loaded, or the files failed to load.
pub fn files_failure(e: &FilesError) -> (res: DojoError)
    ensures
        match e {
            FilesError::RepoNotLoaded => res is RepoNotLoaded,
            FilesError::ChannelClosed => res matches DojoError::FileLoad(m) && m@ == channel_closed_text(),
            FilesError::Jj(t) => res matches DojoError::FileLoad(m) && m@ == t@,
        },
{
    match e {
        FilesError::RepoNotLoaded => DojoError::RepoNotLoaded,
        other => DojoError::FileLoad(other.message()),
    }
}

/// The error a repository shows when the worker could not load the diffs of
/// a commit: the repository is not loaded, or the diffs failed to load.
pub fn diffs_failure(e: &DiffsError) -> (res: DojoError)
    ensures
        match e {
            DiffsError::RepoNotLoaded => res is RepoNotLoaded,
            DiffsError::ChannelClosed => res matches DojoError::DiffLoad(m) && m@ == channel_closed_text(),
            DiffsError::Jj(t) => res matches DojoError::DiffLoad(m) && m@ == t@,
        },
{
    match e {
        DiffsError::RepoNotLoaded => DojoError::RepoNotLoaded,
        other => DojoError::DiffLoad(other.message()),
    }
}

/// The error a repository shows when the worker could not load statistics:
/// the repository is not loaded, or the commits failed to load.
pub fn stats_failure(e: &StatsError) -> (res: DojoError)
    ensures
        match e {
            StatsError::RepoNotLoaded => res is RepoNotLoaded,
            StatsError::ChannelClosed => res matches DojoError::CommitLoad(m) && m@ == channel_closed_text(),
        },
{
    match e {
        StatsError::RepoNotLoaded => DojoError::RepoNotLoaded,
        StatsError::ChannelClosed => DojoError::CommitLoad(String::from_str("Worker channel closed")),
    }
}

/// The error a repository shows when a description could not be saved.
pub fn save_failure(e: &UpdateDescriptionError) -> (res: DojoError)
    ensures
        res matches DojoError::DescriptionUpdate(m) && m@ == match e {
            UpdateDescriptionError::ChannelClosed => channel_closed_text(),
            UpdateDescriptionError::Jj(t) => t@,
        },
{
    DojoError::DescriptionUpdate(e.message())
}

} // verus!
