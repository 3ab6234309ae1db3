//! Shared building blocks: text, ordered maps, the TOML model, versions, and
//! the manifest, lock file, git and file-walk logic.
pub mod bump;
pub mod cargo;
pub mod fs;
pub mod git;
pub mod ordmap;
pub mod text;
pub mod toml;
pub mod version;
