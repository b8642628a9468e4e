//! Stacked pull requests from a change graph of bookmarks: graph
//! reconstruction, stack assembly, submission planning and the status
//! comment codec.

pub mod text;
pub mod vcs;
pub mod graph;
pub mod stacks;
pub mod forge;
pub mod submit;
pub mod comment;
pub mod remote;
pub mod select;
pub mod auth;
