//! Errors of the application, each with the text it reports.

use vstd::prelude::*;

verus! {

/// Error types of the application.
#[derive(Debug, Clone)]
pub enum DojoError {
    RepoOpen(String),
    CommitLoad(String),
    FileLoad(String),
    DiffLoad(String),
    InvalidCommitId(String),
    InvalidPath(String),
    RepoNotLoaded,
    Config(String),
    DescriptionUpdate(String),
}

/// The message of each error.
pub open spec fn dojo_error_text(e: DojoError) -> Seq<char> {
    match e {
        DojoError::RepoOpen(s) => "Failed to open repository: "@ + s@,
        DojoError::CommitLoad(s) => "Failed to load commits: "@ + s@,
        DojoError::FileLoad(s) => "Failed to load files: "@ + s@,
        DojoError::DiffLoad(s) => "Failed to load diff: "@ + s@,
        DojoError::InvalidCommitId(s) => "Invalid commit ID: "@ + s@,
        DojoError::InvalidPath(s) => "Invalid file path: "@ + s@,
        DojoError::RepoNotLoaded => "Repository not loaded"@,
        DojoError::Config(s) => "Config error: "@ + s@,
        DojoError::DescriptionUpdate(s) => "Failed to update description: "@ + s@,
    }
}

impl DojoError {
    /// The error's message.
    pub fn message(&self) -> (res: String)
        ensures
            res@ == dojo_error_text(*self),
    {
        match self {
            DojoError::RepoOpen(s) => String::from_str("Failed to open repository: ").concat(
                s.as_str(),
            ),
            DojoError::CommitLoad(s) => String::from_str("Failed to load commits: ").concat(
                s.as_str(),
            ),
            DojoError::FileLoad(s) => String::from_str("Failed to load files: ").concat(
                s.as_str(),
            ),
            DojoError::DiffLoad(s) => String::from_str("Failed to load diff: ").concat(s.as_str()),
            DojoError::InvalidCommitId(s) => String::from_str("Invalid commit ID: ").concat(
                s.as_str(),
            ),
            DojoError::InvalidPath(s) => String::from_str("Invalid file path: ").concat(
                s.as_str(),
            ),
            DojoError::RepoNotLoaded => String::from_str("Repository not loaded"),
            DojoError::Config(s) => String::from_str("Config error: ").concat(s.as_str()),
            DojoError::DescriptionUpdate(s) => String::from_str(
                "Failed to update description: ",
            ).concat(s.as_str()),
        }
    }
}

} // verus!
