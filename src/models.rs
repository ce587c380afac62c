//! Records of commits and repositories as a store keeps them.

use vstd::prelude::*;

verus! {

/// A stored commit: its hash and its author's name and email.
#[derive(Debug, Clone)]
pub struct Commit {
    pub sha: String,
    pub author: String,
    pub email: String,
}

/// A commit about to be stored, borrowing its texts.
#[derive(Debug, Clone, Copy)]
pub struct NewCommit<'a> {
    pub sha: &'a str,
    pub author: &'a str,
    pub email: &'a str,
}

/// A stored repository: its slug and the latest commit seen in it.
#[derive(Debug, Clone)]
pub struct Repository {
    pub name: String,
    pub latest_commit: Option<String>,
}

} // verus!
