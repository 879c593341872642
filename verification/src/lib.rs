//! Sequentially-numbered backup naming and restore sequencing.
//!
//! A backup of a file `name` is stored beside it as `name.bak` (the first
//! backup) or `name.bak.N` for a positive version number `N`. This crate
//! holds the rules of that naming scheme: recognizing a backup name,
//! recovering the original name from it, choosing the next free version
//! from a directory listing, and the step-by-step restore procedure.
//! File-system access itself (copying, deleting, listing a directory) is
//! left to the caller, which hands the results in as plain values.

pub mod allocate;
pub mod digits;
pub mod paths;
pub mod pattern;
pub mod restore;
