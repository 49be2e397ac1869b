//! Embedded asset repository: a directory of static files is either compiled
//! into the build artifact as a sorted table (the static backend) or read live
//! from disk on every call (the dynamic backend). Both backends expose the
//! same lookup/iteration contract: `get(path) -> Option<FileRecord>` and
//! `iter() -> paths`.

pub mod config;
pub mod dynamic_repo;
pub mod logs;
pub mod paths;
pub mod pattern;
pub mod record;
pub mod snapshot;
pub mod static_repo;
