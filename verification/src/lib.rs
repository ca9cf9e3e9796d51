//! Domain core for the git viewer.
//!
//! Turns plain data read from a repository into what the UI draws: the lane
//! layout of the commit graph, the working-directory listing, the decisions
//! behind staging, unstaging and committing, and the path checks that guard
//! every write. Reading and writing the repository itself happens outside
//! this crate; everything here works on plain values.

pub mod commit;
pub mod detail;
pub mod error;
pub mod fixtures;
pub mod git_binary;
pub mod graph;
pub mod manifest;
pub mod model;
pub mod paths;
pub mod recipe;
pub mod refs;
pub mod sort;
pub mod status;
pub mod write;

pub use error::{CoreError, Result};
