//! Port detection and port bookkeeping for the `portsmith` command line tool.
pub mod commands;
pub mod json;
pub mod text;
pub mod ui;
