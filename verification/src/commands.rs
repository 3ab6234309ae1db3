//! The commands of the tool: their decisions, apart from the I/O around them.
pub mod bump_version;
pub mod jobs;
pub mod dev_deps;
