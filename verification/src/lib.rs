//! Verified core of a small file-renaming utility: case conversion of path
//! components, a recursive rename planner that renames children before their
//! parent directories, and a recursive tally of file extensions.

pub mod case;
pub mod convert;
pub mod plan;
pub mod tally;
pub mod tree;
