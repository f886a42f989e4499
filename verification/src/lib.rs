//! dbdev: packaging and installing Postgres trusted language extensions.
//!
//! - [`control`]: parsing an extension's `.control` file.
//! - [`models`]: the control file's settings, the extension's metadata and
//!   the scripts of a package.
//! - [`package_files`]: recognising a package's files by their names.
//! - [`version_graph`]: which versions upgrade into which, what a version
//!   needs installed, and which base version reaches it.
//! - [`install`]: what installing a package into pg_tle does.
//! - [`create`]: the `create extension` statement.
//! - [`text`]: character-level helpers shared by the parsers.
use vstd::prelude::*;

pub mod control;
pub mod create;
pub mod install;
pub mod models;
pub mod package_files;
pub mod text;
pub mod version_graph;

verus! {

} // verus!
