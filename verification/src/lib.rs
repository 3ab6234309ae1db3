//! Verified core of a workspace maintenance tool: version bumps, manifest and
//! lock file checks, and the decisions around git, memory and dev-dependency
//! checks.
pub mod commands;
pub mod utils;
