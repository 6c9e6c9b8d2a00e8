//! Dependency resolution for build pipelines in a repository of many projects.
//!
//! A pipeline descriptor names the project descriptors it builds; a project
//! descriptor names the projects it references. From the two the crate derives
//! the list of directory globs whose changes concern a pipeline.

pub mod filter;
pub mod path;
pub mod pipeline;
pub mod project;
pub mod store;
pub mod text;
