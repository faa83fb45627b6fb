//! Dependency resolution, archive assembly and integrity checking for JVM
//! project builds, with machine-checked contracts.
//!
//! The library decides and computes; it reads no file and opens no
//! connection.  Package descriptions reach it through a store that the caller
//! fills, archives and directories as named contents.  `pom` and `install`
//! resolve dependencies, `version` orders versions, `uberjar` assembles the
//! runnable archive, `integrity` takes and checks digests; `text` and `table`
//! hold what they share.

pub mod config;
pub mod install;
pub mod integrity;
pub mod java;
pub mod lock;
pub mod manage;
pub mod metadata;
pub mod naming;
pub mod pom;
pub mod run;
pub mod table;
pub mod tasks;
pub mod text;
pub mod uberjar;
pub mod version;
