//! Contributor attribution for a repository and its submodules: mailmap
//! canonicalization, per-commit credit, author maps, per-release totals and
//! score tables.

pub mod attribution;
pub mod author_map;
pub mod error;
pub mod mailmap;
pub mod models;
pub mod pages;
pub mod releases;
pub mod repos;
pub mod reviewers;
pub mod scores;
pub mod submodules;
pub mod text;
