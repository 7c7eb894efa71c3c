//! Decision logic of a git remote helper that keeps one bundle per ref update
//! in an object store: artifact addressing, the remote catalog, push decisions
//! and the helper protocol's replies.

pub mod addressing;
pub mod catalog;
pub mod push;
pub mod protocol;
