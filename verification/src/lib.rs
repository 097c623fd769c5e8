//! A git client's library: the history graph, the change tree, diffs, dates, avatars, the
//! configuration and the commands it hands to git, each stated and proved.
pub mod avatar;
pub mod config;
pub mod git;
pub mod text;
pub mod ui;
