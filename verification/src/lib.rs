//! Commit browsing logic for a jj repository viewer: commit graph layout,
//! line diffs, panel and editor state machines, and the decisions the
//! application loop takes on repository events.

pub mod settings;
pub mod repo;
pub mod line_diff;
pub mod text;
pub mod worker_error;
pub mod error;
pub mod path_set;
pub mod widgets;
pub mod state_wrapper;
pub mod axis;
pub mod screens;
pub mod timestamp;
pub mod components;
pub mod repo_state;
pub mod app_state;
pub mod log_walk;
pub mod worker;
pub mod ids;
