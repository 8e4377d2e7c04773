//! Workspace file helpers and folder-group planning.
//!
//! The library holds the decisions of a workspace backend: how paths are
//! split and joined, how folder-group names are derived and cleaned, how
//! directory listings are ordered, which removal a path calls for, and the
//! step-by-step plans that create folder groups out of symbolic links. The
//! filesystem work itself is done by the caller, which feeds the results of
//! each step back into the plans.
//!
//! Paths are read by Unix rules: `/` is the only separator and there are no
//! drive or device prefixes. Group names are cleaned by the rules of the
//! system the caller names (with or without the Windows device names).

pub mod text;
pub mod paths;
pub mod names;
pub mod entries;
pub mod ops;
pub mod outside;
pub mod plan;
pub mod group;
