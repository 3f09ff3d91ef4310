pub mod details;
pub mod log;
