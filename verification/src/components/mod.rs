pub mod graph;
pub mod description_editor;
pub mod right_panel;
pub mod sidebar;
pub mod summary;
