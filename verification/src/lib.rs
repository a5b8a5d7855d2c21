//! Project aggregation, caching and incremental selection for a terminal
//! multiplexer launcher.

pub mod text;
pub mod project;
pub mod registry;
pub mod cache;
pub mod aggregate;
pub mod picker;
pub mod session;
pub mod config;
pub mod tmux;
