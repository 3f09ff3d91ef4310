pub mod right_panel;
pub mod sidebar;
pub mod diff;
pub mod panes;
