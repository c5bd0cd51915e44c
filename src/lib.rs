//! Stacked-branch workflow helpers for git: parsing `git branch -vv`
//! listings, building the upstream graph, laying out the branch tree,
//! deciding the git steps of reconciling one branch and of restacking a
//! chain, and reading status and prune reports. Running git is left to the
//! caller.

pub mod text;
pub mod entry;
pub mod graph;
pub mod tree;
pub mod restack;
pub mod prune;
pub mod layout;
pub mod reconcile;
