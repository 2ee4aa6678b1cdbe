//! Commit selection over a repository's commit graph: commits by one author
//! reachable from a branch, commits of other branches not yet merged into a
//! base branch, and a time-window filter over the results.
pub mod calendar;
pub mod commit;
pub mod config;
pub mod filters;
pub mod graph;
pub mod laws;
pub mod text;
pub mod walker;

pub use calendar::{get_target_first_day, report_window};
pub use commit::{get_commits_by_email, get_unmerged_commits, Branch, CommitChange, NO_MESSAGE};
pub use config::{Config, ConfigPath, Repo};
pub use filters::Filterable;
pub use graph::{CommitGraph, CommitNode, CommitRecord, CommitTime, GraphError};
pub use text::{contains_text, same_text};
pub use walker::{walk, walk_excluding};
