use vstd::prelude::*;

verus! {

/// Application-wide display settings.
#[derive(Debug, Clone)]
pub struct Settings {
    pub diff: DiffSettings,
    pub commit_list: CommitListSettings,
    pub sidebar: SidebarSettings,
}

/// Settings of the diff view.
#[derive(Debug, Clone)]
pub struct DiffSettings {
    pub side_by_side_threshold: u32,
}

/// Width bounds of the commit list pane, in pixels.
#[derive(Debug, Clone)]
pub struct CommitListSettings {
    pub min_width: u32,
    pub max_width: u32,
}

/// Width bounds of the sidebar pane, in pixels.
#[derive(Debug, Clone)]
pub struct SidebarSettings {
    pub min_width: u32,
    pub max_width: u32,
}

impl Default for Settings {
    fn default() -> (s: Self)
        ensures
            s.diff.side_by_side_threshold == 800,
            s.commit_list.min_width == 400,
            s.commit_list.max_width == 800,
            s.sidebar.min_width == 100,
            s.sidebar.max_width == 180,
    {
        Settings {
            diff: DiffSettings { side_by_side_threshold: 800 },
            commit_list: CommitListSettings { min_width: 400, max_width: 800 },
            sidebar: SidebarSettings { min_width: 100, max_width: 180 },
        }
    }
}

} // verus!
