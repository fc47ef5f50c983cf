//! Maintains "barrel" index files for a module tree: for a target source file
//! below a base directory, every directory between them gets an index file
//! that re-exports the target, directly or through the next inner directory.

pub mod path;
pub mod plan;
pub mod index;
